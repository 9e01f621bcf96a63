use crate::file::{next_data, seek_from, FileState, Next};
use crate::record::{
    lemma_frame_len, lemma_parse_extend, lemma_parse_found, lemma_parse_frame, parse, word, Parsed,
    Record,
};
use vstd::prelude::*;

verus! {

/// The index that the walk over a chunk stands at behind `rec`, when it
/// stood at `last` before it: a data record counts one up.
pub open spec fn step(last: int, rec: Record) -> int {
    if rec is Data {
        last + 1
    } else {
        last
    }
}

/// Whether a chunk is in order from `at` on, where `last` is the index of
/// the last entry before `at`: whole records stand one behind the other up
/// to the last byte, each data record has the index after the one before
/// it, each acknowledgement carries the index of the last data record, and
/// no record names an acknowledged index above its own index or above
/// `ack`.
pub open spec fn chain(bytes: Seq<u8>, at: int, last: int, ack: int) -> bool
    decreases bytes.len() - at,
{
    if at == bytes.len() {
        true
    } else {
        match parse(bytes, at) {
            Parsed::Found(rec) => {
                &&& rec.idx() == step(last, rec)
                &&& rec.ack_idx() <= ack
                &&& rec.ack_idx() <= rec.idx()
                &&& chain(bytes, at + rec.size(), step(last, rec), ack)
            },
            _ => false,
        }
    }
}

/// The index of the last entry of a chunk, where `last` is the index of
/// the last entry before `at`.
pub open spec fn tip(bytes: Seq<u8>, at: int, last: int) -> int
    decreases bytes.len() - at,
{
    match parse(bytes, at) {
        Parsed::Found(rec) => tip(bytes, at + rec.size(), step(last, rec)),
        _ => last,
    }
}

/// The entries of a chunk from `at` on: the index and the payload of each
/// data record.
pub open spec fn entries(bytes: Seq<u8>, at: int) -> Seq<(u64, Seq<u8>)>
    decreases bytes.len() - at,
{
    match parse(bytes, at) {
        Parsed::Found(rec) => match rec {
            Record::Data { idx, data, .. } => seq![(idx, data)] + entries(bytes, at + rec.size()),
            Record::Ack { .. } => entries(bytes, at + rec.size()),
        },
        _ => Seq::empty(),
    }
}

/// Whether the walk over the records of a chunk from `at`, where `last` is
/// the index of the last entry before `at`, comes to the position `to`
/// with `reached` as the index of the last entry before it.
pub open spec fn passes(bytes: Seq<u8>, at: int, last: int, to: int, reached: int) -> bool
    decreases bytes.len() - at,
{
    if at == to {
        last == reached
    } else if at > to {
        false
    } else {
        match parse(bytes, at) {
            Parsed::Found(rec) => passes(bytes, at + rec.size(), step(last, rec), to, reached),
            _ => false,
        }
    }
}

/// What a record adds to the entries of a chunk.
pub open spec fn entry_of(rec: Record) -> Seq<(u64, Seq<u8>)> {
    match rec {
        Record::Data { idx, data, .. } => seq![(idx, data)],
        Record::Ack { .. } => Seq::empty(),
    }
}

/// A chunk in order stays in order when the next record is written behind
/// it, and gains that record's entry.
#[verifier::rlimit(50)]
pub proof fn lemma_chain_append(bytes: Seq<u8>, at: int, last: int, ack: int, rec: Record)
    requires
        0 <= at <= bytes.len(),
        chain(bytes, at, last, ack),
        rec.valid(),
        rec.ack_idx() <= ack,
        rec.ack_idx() <= rec.idx(),
        rec.idx() == step(tip(bytes, at, last), rec),
    ensures
        chain(bytes + rec.frame(), at, last, ack),
        tip(bytes + rec.frame(), at, last) == step(tip(bytes, at, last), rec),
        entries(bytes + rec.frame(), at) == entries(bytes, at) + entry_of(rec),
        passes(bytes + rec.frame(), at, last, bytes.len() as int, tip(bytes, at, last)),
    decreases bytes.len() - at,
{
    let longer = bytes + rec.frame();
    lemma_frame_len(rec);
    if at == bytes.len() {
        lemma_parse_frame(bytes, rec, Seq::empty());
        assert(bytes + rec.frame() + Seq::<u8>::empty() =~= longer);
        assert(parse(longer, at) == Parsed::Found(rec));
        assert(chain(longer, at + rec.size(), step(last, rec), ack));
        assert(parse(longer, at + rec.size()) is End);
        assert(tip(longer, at + rec.size(), step(last, rec)) == step(last, rec));
        assert(entries(longer, at + rec.size()) =~= Seq::empty());
        assert(entries(bytes, at) =~= Seq::empty());
        assert(entries(longer, at) =~= entry_of(rec));
    } else {
        let here = parse(bytes, at)->Found_0;
        lemma_parse_extend(bytes, rec.frame(), at);
        lemma_parse_found(bytes, at);
        lemma_chain_append(bytes, at + here.size(), step(last, here), ack, rec);
        assert(entries(longer, at) =~= entries(bytes, at) + entry_of(rec));
    }
}

/// The walk over a chunk comes to the same positions when the chunk
/// grows.
pub proof fn lemma_passes_extend(
    bytes: Seq<u8>,
    more: Seq<u8>,
    at: int,
    last: int,
    to: int,
    reached: int,
)
    requires
        passes(bytes, at, last, to, reached),
    ensures
        passes(bytes + more, at, last, to, reached),
    decreases bytes.len() - at,
{
    if at < to {
        let here = parse(bytes, at)->Found_0;
        lemma_parse_extend(bytes, more, at);
        lemma_parse_found(bytes, at);
        lemma_passes_extend(bytes, more, at + here.size(), step(last, here), to, reached);
    }
}

/// A walk that comes to one position, and from there to another, comes
/// from the first to the last.
pub proof fn lemma_passes_through(
    bytes: Seq<u8>,
    at: int,
    last: int,
    mid: int,
    between: int,
    to: int,
    reached: int,
)
    requires
        passes(bytes, at, last, mid, between),
        passes(bytes, mid, between, to, reached),
    ensures
        passes(bytes, at, last, to, reached),
    decreases bytes.len() - at,
{
    if at < mid {
        let here = parse(bytes, at)->Found_0;
        lemma_parse_found(bytes, at);
        lemma_passes_positions(bytes, mid, between, to, reached);
        lemma_passes_through(
            bytes,
            at + here.size(),
            step(last, here),
            mid,
            between,
            to,
            reached,
        );
    }
}

/// A walk goes forward, and counts up.
pub proof fn lemma_passes_positions(bytes: Seq<u8>, at: int, last: int, to: int, reached: int)
    requires
        passes(bytes, at, last, to, reached),
    ensures
        at <= to,
        last <= reached,
        at < to ==> to <= bytes.len(),
    decreases bytes.len() - at,
{
    if at < to {
        let here = parse(bytes, at)->Found_0;
        lemma_parse_found(bytes, at);
        lemma_passes_positions(bytes, at + here.size(), step(last, here), to, reached);
    }
}

/// In a chunk in order, the part behind any position that the walk comes
/// to is in order, and ends with the same index.
pub proof fn lemma_chain_from(bytes: Seq<u8>, at: int, last: int, ack: int, to: int, reached: int)
    requires
        chain(bytes, at, last, ack),
        passes(bytes, at, last, to, reached),
        0 <= at,
    ensures
        chain(bytes, to, reached, ack),
        tip(bytes, at, last) == tip(bytes, to, reached),
    decreases bytes.len() - at,
{
    if at < to {
        let here = parse(bytes, at)->Found_0;
        lemma_parse_found(bytes, at);
        lemma_chain_from(bytes, at + here.size(), step(last, here), ack, to, reached);
    }
}

/// A chunk in order stays in order when more is acknowledged.
pub proof fn lemma_chain_ack(bytes: Seq<u8>, at: int, last: int, ack: int, more: int)
    requires
        chain(bytes, at, last, ack),
        ack <= more,
        0 <= at,
    ensures
        chain(bytes, at, last, more),
    decreases bytes.len() - at,
{
    if at != bytes.len() {
        let here = parse(bytes, at)->Found_0;
        lemma_parse_found(bytes, at);
        lemma_chain_ack(bytes, at + here.size(), step(last, here), ack, more);
    }
}

/// In a chunk in order the walk comes to the end, the entries have the
/// indices that follow `last` one by one, and the last of them is the tip.
pub proof fn lemma_chain_entries(bytes: Seq<u8>, at: int, last: int, ack: int)
    requires
        chain(bytes, at, last, ack),
        0 <= at <= bytes.len(),
    ensures
        passes(bytes, at, last, bytes.len() as int, tip(bytes, at, last)),
        entries(bytes, at).len() == tip(bytes, at, last) - last,
        forall|k: int|
            0 <= k < entries(bytes, at).len() ==> (#[trigger] entries(bytes, at)[k]).0 == last + 1
                + k,
    decreases bytes.len() - at,
{
    if at != bytes.len() {
        let here = parse(bytes, at)->Found_0;
        lemma_parse_found(bytes, at);
        lemma_chain_entries(bytes, at + here.size(), step(last, here), ack);
        let rest = entries(bytes, at + here.size());
        assert(entries(bytes, at) =~= entry_of(here) + rest);
        assert forall|k: int| 0 <= k < entries(bytes, at).len() implies (#[trigger] entries(
            bytes,
            at,
        )[k]).0 == last + 1 + k by {
            if here is Data {
                if k > 0 {
                    assert(entries(bytes, at)[k] == rest[k - 1]);
                }
            } else {
                assert(entries(bytes, at)[k] == rest[k]);
            }
        }
    } else {
        assert(parse(bytes, at) is End);
    }
}

/// In a chunk in order, the search for the next data record finds the
/// first of the entries, and none where there are no entries; the walk
/// comes to where the search ends.
pub proof fn lemma_chain_next(bytes: Seq<u8>, at: int, last: int, ack: int)
    requires
        chain(bytes, at, last, ack),
        0 <= at <= bytes.len(),
        tip(bytes, at, last) < u64::MAX,
    ensures
        match next_data(bytes, at) {
            Next::Entry { idx, data, end } => {
                &&& idx == last + 1
                &&& entries(bytes, at) == seq![(idx, data)] + entries(bytes, end)
                &&& passes(bytes, at, last, end, last + 1)
                &&& at < end <= bytes.len()
            },
            Next::Nothing { end } => {
                &&& entries(bytes, at) == Seq::<(u64, Seq<u8>)>::empty()
                &&& end == bytes.len()
                &&& passes(bytes, at, last, end, last)
                &&& tip(bytes, at, last) == last
            },
            _ => false,
        },
    decreases bytes.len() - at,
{
    if at != bytes.len() {
        let here = parse(bytes, at)->Found_0;
        lemma_parse_found(bytes, at);
        if here is Ack {
            lemma_chain_next(bytes, at + here.size(), last, ack);
        } else {
            lemma_tip_grows(bytes, at + here.size(), last + 1);
            assert(passes(bytes, at + here.size(), last + 1, at + here.size(), last + 1));
        }
    } else {
        assert(parse(bytes, at) is End);
    }
}

/// The last record of a file that is not empty, going by the length in
/// the last eight bytes of the file.
pub open spec fn tail_record(file: Seq<u8>) -> Record {
    parse(file, FileState::tail_start(file)->Some_0)->Found_0
}

/// Where a record ends a file, the length in the last eight bytes of the
/// file leads to that record.
pub proof fn lemma_tail_here(bytes: Seq<u8>, at: int)
    requires
        parse(bytes, at) is Found,
        at + parse(bytes, at)->Found_0.size() == bytes.len(),
    ensures
        FileState::tail_start(bytes) == Some(at),
{
    lemma_parse_found(bytes, at);
    let rec = parse(bytes, at)->Found_0;
    let len = word(bytes, at);
    if len == u64::MAX {
        assert(word(bytes, bytes.len() - 8) == 0);
    } else {
        assert(word(bytes, bytes.len() - 8) == len);
    }
}

/// In a chunk in order that is not empty, the length in the last eight
/// bytes leads to the last record, which the walk comes to and which
/// carries the index of the last entry.
pub proof fn lemma_chain_tail(bytes: Seq<u8>, at: int, last: int, ack: int)
    requires
        chain(bytes, at, last, ack),
        0 <= at < bytes.len(),
    ensures
        FileState::tail_start(bytes) is Some,
        at <= FileState::tail_start(bytes)->Some_0,
        parse(bytes, FileState::tail_start(bytes)->Some_0) is Found,
        FileState::tail_start(bytes)->Some_0 + tail_record(bytes).size() == bytes.len(),
        tail_record(bytes).idx() == tip(bytes, at, last),
        tail_record(bytes).ack_idx() <= ack,
        tail_record(bytes).ack_idx() <= tail_record(bytes).idx(),
    decreases bytes.len() - at,
{
    let here = parse(bytes, at)->Found_0;
    lemma_parse_found(bytes, at);
    if at + here.size() == bytes.len() {
        lemma_tail_here(bytes, at);
        assert(parse(bytes, at + here.size()) is End);
        assert(tip(bytes, at + here.size(), step(last, here)) == step(last, here));
        assert(tip(bytes, at, last) == step(last, here));
    } else {
        lemma_chain_tail(bytes, at + here.size(), step(last, here), ack);
    }
}

/// The record that was written last is the last record of the file.
pub proof fn lemma_tail_appended(bytes: Seq<u8>, rec: Record)
    requires
        rec.valid(),
    ensures
        FileState::tail_start(bytes + rec.frame()) == Some(bytes.len() as int),
        tail_record(bytes + rec.frame()) == rec,
{
    lemma_parse_frame(bytes, rec, Seq::empty());
    lemma_frame_len(rec);
    assert(bytes + rec.frame() + Seq::<u8>::empty() =~= bytes + rec.frame());
    lemma_tail_here(bytes + rec.frame(), bytes.len() as int);
}

/// The index that a search for `target` in a chunk in order comes to
/// stand behind, where `last` is the index of the last entry before the
/// search and `tip` the index of the last entry of the chunk.
pub open spec fn sought_level(last: int, target: int, tip: int) -> int {
    if target - 1 <= last {
        last
    } else if target - 1 <= tip {
        target - 1
    } else {
        tip
    }
}

/// In a chunk in order, a search for an index above `last` ends before the
/// entry with that index, or at the end of the chunk where the chunk has
/// no such entry.
pub proof fn lemma_chain_seek(bytes: Seq<u8>, at: int, last: int, ack: int, target: u64)
    requires
        chain(bytes, at, last, ack),
        0 <= at <= bytes.len(),
        last < target,
    ensures
        seek_from(bytes, at, target) is At,
        passes(
            bytes,
            at,
            last,
            seek_from(bytes, at, target)->At_0,
            sought_level(last, target as int, tip(bytes, at, last)),
        ),
    decreases bytes.len() - at,
{
    if at != bytes.len() {
        let here = parse(bytes, at)->Found_0;
        lemma_parse_found(bytes, at);
        if here.idx() >= target {
            lemma_tip_grows(bytes, at + here.size(), step(last, here));
        } else {
            lemma_chain_seek(bytes, at + here.size(), step(last, here), ack, target);
            lemma_tip_grows(bytes, at + here.size(), step(last, here));
        }
    } else {
        assert(parse(bytes, at) is End);
    }
}

/// The index of the last entry of a chunk is not below the index of the
/// last entry before it.
pub proof fn lemma_tip_grows(bytes: Seq<u8>, at: int, last: int)
    ensures
        last <= tip(bytes, at, last),
    decreases bytes.len() - at,
{
    if parse(bytes, at) is Found {
        let here = parse(bytes, at)->Found_0;
        lemma_parse_found(bytes, at);
        lemma_tip_grows(bytes, at + here.size(), step(last, here));
    }
}

/// In a chunk in order, the entries behind a position that the walk comes
/// to are the entries without those up to the index reached there.
pub proof fn lemma_entries_skip(
    bytes: Seq<u8>,
    at: int,
    last: int,
    ack: int,
    to: int,
    reached: int,
)
    requires
        chain(bytes, at, last, ack),
        passes(bytes, at, last, to, reached),
        0 <= at,
    ensures
        last <= reached,
        reached - last <= entries(bytes, at).len(),
        entries(bytes, to) == entries(bytes, at).skip(reached - last),
    decreases bytes.len() - at,
{
    if at < to {
        let here = parse(bytes, at)->Found_0;
        lemma_parse_found(bytes, at);
        lemma_entries_skip(bytes, at + here.size(), step(last, here), ack, to, reached);
        let rest = entries(bytes, at + here.size());
        if here is Data {
            assert(entries(bytes, at) =~= entry_of(here) + rest);
            assert(entries(bytes, at).skip(reached - last) =~= rest.skip(reached - last - 1));
        }
    } else {
        assert(entries(bytes, at).skip(0) =~= entries(bytes, at));
    }
}

/// The index of the last entry before the position `to` of a chunk,
/// where `last` is the index of the last entry before `at`.
pub open spec fn level(bytes: Seq<u8>, at: int, last: int, to: int) -> int
    decreases bytes.len() - at,
{
    if at >= to {
        last
    } else {
        match parse(bytes, at) {
            Parsed::Found(rec) => level(bytes, at + rec.size(), step(last, rec), to),
            _ => last,
        }
    }
}

/// The walk comes to a position with the index that `level` gives for it.
pub proof fn lemma_level(bytes: Seq<u8>, at: int, last: int, to: int, reached: int)
    requires
        passes(bytes, at, last, to, reached),
    ensures
        level(bytes, at, last, to) == reached,
    decreases bytes.len() - at,
{
    if at < to {
        let here = parse(bytes, at)->Found_0;
        lemma_parse_found(bytes, at);
        lemma_level(bytes, at + here.size(), step(last, here), to, reached);
    }
}

impl FileState {
    /// Whether the chunk is in order, where `before` is the index of the
    /// last entry before the chunk and `ack` the acknowledged index of the
    /// log: its records are in order, its read pointer stands between two
    /// of them, and its read index is not above the index of the next
    /// entry to read.
    pub open spec fn in_order(self, before: int, ack: int) -> bool {
        &&& self.wf()
        &&& 0 <= before
        &&& chain(self.file, 0, before, ack)
        &&& passes(self.file, 0, before, self.read_pointer as int, self.read_level(before))
        &&& self.next_idx_to_read <= self.read_level(before) + 1
    }

    /// The index of the last entry before the read pointer.
    pub open spec fn read_level(self, before: int) -> int {
        level(self.file, 0, before, self.read_pointer as int)
    }

    /// The entries that are left to read in the chunk.
    pub open spec fn unread(self) -> Seq<(u64, Seq<u8>)> {
        entries(self.file, self.read_pointer as int)
    }
}

/// A seek in a chunk in order, to an index that is not above the index
/// that the next push gets, succeeds and leaves the chunk in order. The
/// read pointer then stands before the entry sought, or before the first
/// entry where the index sought lies before the chunk.
pub proof fn lemma_sought_in_order(s: FileState, before: int, ack: int, target: u64)
    requires
        s.wf(),
        0 <= before,
        chain(s.file, 0, before, ack),
        target <= tip(s.file, 0, before) + 1,
    ensures
        s.sought(target) is Ok,
        s.sought(target)->Ok_0.file == s.file,
        s.sought(target)->Ok_0 == (FileState {
            read_pointer: s.sought(target)->Ok_0.read_pointer,
            next_idx_to_read: s.sought(target)->Ok_0.next_idx_to_read,
            ..s
        }),
        s.sought(target)->Ok_0.in_order(before, ack),
        s.sought(target)->Ok_0.read_level(before) == sought_level(
            before,
            target as int,
            tip(s.file, 0, before),
        ),
        s.file.len() > 0 && target > before ==> s.sought(target)->Ok_0.next_idx_to_read == target,
        s.file.len() > 0 ==> s.sought(target)->Ok_0.next_idx_to_read >= target,
        parse(s.file, 0) is Found && target <= parse(s.file, 0)->Found_0.idx() ==> s.sought(
            target,
        )->Ok_0.next_idx_to_read == parse(s.file, 0)->Found_0.idx(),
{
    lemma_tip_grows(s.file, 0, before);
    if s.file.len() == 0 {
        assert(parse(s.file, 0) is End);
        let t = s.sought(target)->Ok_0;
        assert(passes(s.file, 0, before, 0, before));
        lemma_level(s.file, 0, before, 0, before);
    } else {
        let first = parse(s.file, 0)->Found_0;
        lemma_parse_found(s.file, 0);
        if first.idx() > target {
            assert(passes(s.file, 0, before, 0, before));
            lemma_level(s.file, 0, before, 0, before);
        } else if target > before {
            lemma_chain_seek(s.file, 0, before, ack, target);
            let at = seek_from(s.file, 0, target)->At_0;
            let l = sought_level(before, target as int, tip(s.file, 0, before));
            lemma_level(s.file, 0, before, at, l);
            lemma_passes_positions(s.file, 0, before, at, l);
        } else {
            assert(passes(s.file, 0, before, 0, before));
            lemma_level(s.file, 0, before, 0, before);
        }
    }
}

/// A chunk in order opens: the cursors are those of its last record, and
/// the read pointer stands before the first entry that is not
/// acknowledged, or before the first entry of the chunk where that lies
/// later.
pub proof fn lemma_opened_in_order(file: Seq<u8>, before: int, ack: int)
    requires
        0 <= before,
        chain(file, 0, before, ack),
        tip(file, 0, before) < u64::MAX,
        file.len() <= u64::MAX,
        file.len() > 0,
    ensures
        FileState::opened(file) is Ok,
        FileState::opened(file)->Ok_0.file == file,
        FileState::opened(file)->Ok_0.in_order(before, ack),
        FileState::opened(file)->Ok_0.next_idx_to_write == tip(file, 0, before) + 1,
        FileState::opened(file)->Ok_0.ack_idx == tail_record(file).ack_idx(),
        FileState::opened(file)->Ok_0.ack_written == tail_record(file).ack_idx(),
        FileState::opened(file)->Ok_0.read_level(before) == sought_level(
            before,
            tail_record(file).ack_idx() + 1,
            tip(file, 0, before),
        ),
        tail_record(file).ack_idx() + 1 > before ==> FileState::opened(
            file,
        )->Ok_0.next_idx_to_read == tail_record(file).ack_idx() + 1,
        FileState::opened(file)->Ok_0.next_idx_to_read > tail_record(file).ack_idx(),
        tail_record(file).ack_idx() + 1 <= parse(file, 0)->Found_0.idx() ==> FileState::opened(
            file,
        )->Ok_0.next_idx_to_read == parse(file, 0)->Found_0.idx(),
{
    lemma_chain_tail(file, 0, before, ack);
    lemma_tip_grows(file, 0, before);
    let start = FileState::tail_start(file)->Some_0;
    let rec = tail_record(file);
    lemma_parse_found(file, start);
    let seeded = FileState {
        file,
        next_idx_to_write: (rec.idx() + 1) as u64,
        write_offset: file.len() as u64,
        next_idx_to_read: (rec.ack_idx() + 1) as u64,
        read_pointer: start as u64,
        ack_idx: rec.ack_idx(),
        ack_written: rec.ack_idx(),
    };
    lemma_sought_in_order(seeded, before, ack, (rec.ack_idx() + 1) as u64);
}

/// A pop from an empty chunk returns nothing.
pub proof fn lemma_fresh_chunk_pop()
    ensures
        next_data(FileState::fresh().file, 0) == (Next::Nothing { end: 0 }),
        FileState::fresh().popped() == FileState::fresh(),
{
    assert(parse(FileState::fresh().file, 0) is End);
}

/// A push to an empty chunk followed by a pop returns the pushed payload
/// with index 1, the index that the push returns.
#[verifier::rlimit(50)]
pub proof fn lemma_fresh_chunk_push_pop(data: Seq<u8>)
    requires
        32 + data.len() <= u64::MAX,
    ensures
        FileState::fresh().next_idx_to_write == 1,
        next_data(FileState::fresh().pushed(data).file, 0) == (Next::Entry {
            idx: 1,
            data,
            end: 32 + data.len() as int,
        }),
{
    let rec = FileState::fresh().next_record(data);
    let file = FileState::fresh().pushed(data).file;
    lemma_parse_frame(Seq::empty(), rec, Seq::empty());
    assert(Seq::<u8>::empty() + rec.frame() + Seq::<u8>::empty() =~= file);
    assert(parse(file, 0) == Parsed::Found(rec));
    assert(rec.idx() == 1);
}

} // verus!
