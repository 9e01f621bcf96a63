use crate::log::{lemma_pop_keeps, LogState, Popped};
use crate::order::{
    lemma_ack_in_order, lemma_empty_log_in_order, lemma_pop_in_order, lemma_push_in_order,
};
use crate::recovery::{
    can_revert, lemma_pending, lemma_pending_indices, lemma_reopened_in_order,
    lemma_revert_in_order,
};
use vstd::prelude::*;

verus! {

/// A call of one of the operations of a log.
pub enum Call {
    /// A push of a payload
    Push(Seq<u8>),
    /// A pop
    Pop,
    /// An acknowledgement of an index; one that the log refuses changes
    /// nothing
    Ack(u64),
    /// A revert
    Revert,
    /// A close, and an open of the chunks that the close leaves behind
    Reopen,
}

/// Whether the log can take the call: a push and a close need room for
/// what they write, and a revert needs what `can_revert` says.
pub open spec fn admits(s: LogState, call: Call) -> bool {
    match call {
        Call::Push(data) => s.write.next_idx_to_write < u64::MAX && s.write.file.len() + 32
            + data.len() <= usize::MAX,
        Call::Pop => true,
        Call::Ack(_) => true,
        Call::Revert => can_revert(s),
        Call::Reopen => s.write.file.len() + 32 <= usize::MAX,
    }
}

/// The log after the call.
pub open spec fn after(s: LogState, call: Call) -> LogState {
    match call {
        Call::Push(data) => s.pushed(data),
        Call::Pop => s.popped().0,
        Call::Ack(id) => if s.can_ack(id) {
            s.acked(id)
        } else {
            s
        },
        Call::Revert => s.reverted().0,
        Call::Reopen => match s.reopened() {
            Ok(log) => log,
            Err(_) => s,
        },
    }
}

/// The log after a sequence of calls.
pub open spec fn run(s: LogState, calls: Seq<Call>) -> LogState
    decreases calls.len(),
{
    if calls.len() == 0 {
        s
    } else {
        after(run(s, calls.drop_last()), calls.last())
    }
}

/// Whether the log can take each call of the sequence at the time when it
/// is made.
pub open spec fn admitted(s: LogState, calls: Seq<Call>) -> bool
    decreases calls.len(),
{
    calls.len() == 0 || (admitted(s, calls.drop_last()) && admits(
        run(s, calls.drop_last()),
        calls.last(),
    ))
}

/// The number of pushes among the calls.
pub open spec fn pushes(calls: Seq<Call>) -> nat
    decreases calls.len(),
{
    if calls.len() == 0 {
        0
    } else {
        pushes(calls.drop_last()) + if calls.last() is Push {
            1nat
        } else {
            0nat
        }
    }
}

/// Whether the calls are pushes, pops and acknowledgements only.
pub open spec fn plain(calls: Seq<Call>) -> bool {
    forall|i: int|
        0 <= i < calls.len() ==> (#[trigger] calls[i]) is Push || calls[i] is Pop || calls[i]
            is Ack
}

/// The queue that a sequence of pushes, pops and acknowledgements makes of
/// a queue of entries, where `next` is the index of the next push: a push
/// puts its payload behind the others under the next index, a pop takes
/// the first entry, if there is one, and an acknowledgement changes
/// nothing.
pub open spec fn queue(entries: Seq<(u64, Seq<u8>)>, next: int, calls: Seq<Call>) -> Seq<
    (u64, Seq<u8>),
>
    decreases calls.len(),
{
    if calls.len() == 0 {
        entries
    } else {
        let before = queue(entries, next, calls.drop_last());
        match calls.last() {
            Call::Push(data) => before.push(((next + pushes(calls.drop_last())) as u64, data)),
            Call::Pop => if before.len() > 0 {
                before.drop_first()
            } else {
                before
            },
            _ => before,
        }
    }
}

/// One call that a log in order can take leaves the log in order, takes
/// nothing back that is acknowledged, and gives the next push the next
/// index, whatever chunks it has begun or let go.
pub proof fn lemma_call_in_order(s: LogState, call: Call)
    requires
        s.in_order(),
        admits(s, call),
    ensures
        after(s, call).in_order(),
        after(s, call).write.ack_idx >= s.write.ack_idx,
        after(s, call).write.next_idx_to_write == s.write.next_idx_to_write + if call is Push {
            1int
        } else {
            0int
        },
{
    match call {
        Call::Push(data) => {
            lemma_push_in_order(s, data);
        },
        Call::Pop => {
            lemma_pop_in_order(s);
            lemma_pop_keeps(s);
        },
        Call::Ack(id) => {
            if s.can_ack(id) {
                lemma_ack_in_order(s, id);
            }
        },
        Call::Revert => {
            lemma_revert_in_order(s);
        },
        Call::Reopen => {
            lemma_reopened_in_order(s);
        },
    }
}

/// Any sequence of calls that a log in order can take leaves the log in
/// order. Nothing that is acknowledged is taken back, and the index of the
/// next push has grown by the number of pushes: pushes get the indices one
/// by one, also across new chunks and across a close and an open.
pub proof fn lemma_run_in_order(s: LogState, calls: Seq<Call>)
    requires
        s.in_order(),
        admitted(s, calls),
    ensures
        run(s, calls).in_order(),
        run(s, calls).write.ack_idx >= s.write.ack_idx,
        run(s, calls).write.next_idx_to_write == s.write.next_idx_to_write + pushes(calls),
    decreases calls.len(),
{
    if calls.len() > 0 {
        lemma_run_in_order(s, calls.drop_last());
        lemma_call_in_order(run(s, calls.drop_last()), calls.last());
    }
}

/// After any sequence of pushes, pops and acknowledgements that a log in
/// order can take, the pending entries are what the same calls make of a
/// queue: pops return the entries in the order of their pushes, each with
/// the index that its push returned, and nothing where all are returned.
pub proof fn lemma_run_queue(s: LogState, calls: Seq<Call>)
    requires
        s.in_order(),
        admitted(s, calls),
        plain(calls),
    ensures
        run(s, calls).in_order(),
        run(s, calls).pending() == queue(
            s.pending(),
            s.write.next_idx_to_write as int,
            calls,
        ),
        run(s, calls).pops_first(),
    decreases calls.len(),
{
    if calls.len() > 0 {
        let head = calls.drop_last();
        let t = run(s, head);
        assert(plain(head)) by {
            assert forall|i: int| 0 <= i < head.len() implies (#[trigger] head[i]) is Push
                || head[i] is Pop || head[i] is Ack by {
                assert(head[i] == calls[i]);
            }
        }
        assert(calls.last() == calls[calls.len() - 1]);
        lemma_run_queue(s, head);
        lemma_run_in_order(s, head);
        lemma_call_in_order(t, calls.last());
        match calls.last() {
            Call::Push(data) => {
                lemma_push_in_order(t, data);
            },
            Call::Pop => {
                lemma_pop_in_order(t);
            },
            Call::Ack(id) => {
                if t.can_ack(id) {
                    lemma_ack_in_order(t, id);
                }
            },
            _ => {},
        }
    }
    lemma_pop_in_order(run(s, calls));
}

/// On a log that began empty, pushes get the indices from 1 on, and pops
/// return the entries of the queue that the calls make of the empty queue.
pub proof fn lemma_run_from_empty(chunk_size: u64, max_chunks: usize, calls: Seq<Call>)
    requires
        admitted(LogState::opened(Seq::empty(), chunk_size, max_chunks)->Ok_0, calls),
        plain(calls),
    ensures
        run(LogState::opened(Seq::empty(), chunk_size, max_chunks)->Ok_0, calls).pending()
            == queue(Seq::empty(), 1, calls),
        run(
            LogState::opened(Seq::empty(), chunk_size, max_chunks)->Ok_0,
            calls,
        ).write.next_idx_to_write == 1 + pushes(calls),
        run(LogState::opened(Seq::empty(), chunk_size, max_chunks)->Ok_0, calls).pops_first(),
{
    let s = LogState::opened(Seq::empty(), chunk_size, max_chunks)->Ok_0;
    lemma_empty_log_in_order(chunk_size, max_chunks);
    lemma_run_queue(s, calls);
    lemma_run_in_order(s, calls);
    assert(s.pending() =~= Seq::empty());
}

/// In a log in order, a pop returns no entry at or below the acknowledged
/// index.
pub proof fn lemma_pop_above_ack(s: LogState)
    requires
        s.in_order(),
    ensures
        s.popped().1 matches Popped::Entry { idx, .. } ==> idx > s.write.ack_idx,
{
    lemma_pop_in_order(s);
    lemma_pending(s);
    lemma_pending_indices(s);
}

/// Once an index is acknowledged in a log in order, no pop returns an
/// entry at or below it, whatever calls the log has taken since, a close
/// and an open and a revert among them.
pub proof fn lemma_run_acked(s: LogState, calls: Seq<Call>, id: u64)
    requires
        s.in_order(),
        admitted(s, calls),
        id <= s.write.ack_idx,
    ensures
        run(s, calls).write.ack_idx >= id,
        run(s, calls).popped().1 matches Popped::Entry { idx, .. } ==> idx > id,
{
    lemma_run_in_order(s, calls);
    lemma_pop_above_ack(run(s, calls));
}

} // verus!
