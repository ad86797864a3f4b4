//! Low-level logic for ordered mapping.
use crate::inbox::{channel_is_full, receive_blocking, receive_now, Inbox};
use crate::shared_size::{
    new_size_cell, new_space_signal, publish_size, read_size, wait_until_not_full, wake_one,
    Published, SpaceSeen, Woken,
};
use std::collections::BTreeMap;
use std::sync::Arc;
use vstd::prelude::*;

verus! {

/// Whether a buffer holding `current_size` items has no free slot left.
pub open spec fn is_full_spec(max_buffer_size: usize, current_size: usize) -> bool {
    max_buffer_size <= current_size
}

/// The number of free slots of a buffer of `max_buffer_size` slots that holds
/// `current_size` items.
pub open spec fn free_slots_spec(max_buffer_size: usize, current_size: usize) -> usize {
    if current_size >= max_buffer_size {
        0
    } else {
        (max_buffer_size - current_size) as usize
    }
}

/// Whether a buffer of `max_buffer_size` slots holding `current_size` items is full.
pub fn buffer_is_full(max_buffer_size: usize, current_size: usize) -> (full: bool)
    ensures
        full == is_full_spec(max_buffer_size, current_size),
        full <==> current_size >= max_buffer_size,
{
    max_buffer_size <= current_size
}

/// How many slots a buffer of `max_buffer_size` slots holding `current_size`
/// items still has free.
pub fn free_slots(max_buffer_size: usize, current_size: usize) -> (slots: usize)
    ensures
        slots == free_slots_spec(max_buffer_size, current_size),
        current_size >= max_buffer_size ==> slots == 0,
        current_size < max_buffer_size ==> slots + current_size == max_buffer_size,
{
    if current_size >= max_buffer_size {
        0
    } else {
        max_buffer_size - current_size
    }
}

/// The shared state a producer consults before handing out more tasks: the
/// maximum number of buffered results and the number currently buffered.
pub struct OrderedBufferState {
    max_buffer_size: usize,
    current_buffer_size: std::sync::Mutex<usize>,
    still_has_space: std::sync::Condvar,
}

impl OrderedBufferState {
    /// The maximum number of results the buffer may hold.
    pub closed spec fn capacity(&self) -> usize {
        self.max_buffer_size
    }

    /// A buffer state of `max_buffer_size` slots whose shared size cell is
    /// created holding `initial_size`, with the receipt of that size.
    fn with_capacity(max_buffer_size: usize, initial_size: usize) -> (made: (Self, Published))
        ensures
            made.0.capacity() == max_buffer_size,
            made.1.size() == initial_size,
    {
        let (cell, published) = new_size_cell(initial_size);
        (
            OrderedBufferState {
                max_buffer_size,
                current_buffer_size: cell,
                still_has_space: new_space_signal(),
            },
            published,
        )
    }

    /// How many slots are available to insert before the buffer fills up.
    ///
    /// The current size is read from another thread's updates, so all that is
    /// fixed is that the answer is `free_slots` of the capacity and of some size.
    pub fn slots_available(&self) -> (slots: usize)
        ensures
            exists|seen: usize| slots == free_slots_spec(self.capacity(), seen),
            slots <= self.capacity(),
    {
        let current_size: usize = read_size(&self.current_buffer_size);
        let slots: usize = free_slots(self.max_buffer_size, current_size);
        assert(slots == free_slots_spec(self.capacity(), current_size));
        slots
    }

    /// Called by the producer, wait until there are slots available.
    ///
    /// Returns only once it has seen, under the lock of the shared size cell,
    /// a size below the capacity; the receipt of the size seen is handed back.
    pub fn wait_for_buffer_space(&self) -> (seen: SpaceSeen)
        requires
            self.capacity() > 0,
        ensures
            seen.size() < self.capacity(),
            free_slots_spec(self.capacity(), seen.size()) > 0,
            seen.bound() == self.capacity(),
    {
        wait_until_not_full(&self.current_buffer_size, &self.still_has_space, self.max_buffer_size)
    }
}

/// Whether `id` is the smallest key of `pending`.
pub open spec fn is_first_pending<M>(pending: Map<usize, M>, id: usize) -> bool {
    &&& pending.contains_key(id)
    &&& forall|k: usize| #[trigger] pending.contains_key(k) ==> id <= k
}

/// Taking the expected message out of the buffer: when the smallest buffered
/// id is the expected one, that message is handed out and the next id is
/// expected; otherwise nothing changes. The triple is the expected id, the
/// buffered messages, and what is handed out.
pub open spec fn take_buffered<M>(expected: usize, pending: Map<usize, M>) -> (
    usize,
    Map<usize, M>,
    Option<M>,
) {
    if is_first_pending(pending, expected) {
        ((expected + 1) as usize, pending.remove(expected), Some(pending[expected]))
    } else {
        (expected, pending, None)
    }
}

/// Accepting a message `id` that arrived: the expected one is handed out at
/// once, any other is buffered under its id.
pub open spec fn accept<M>(expected: usize, pending: Map<usize, M>, id: usize, message: M) -> (
    usize,
    Map<usize, M>,
    Option<M>,
) {
    if id == expected {
        ((expected + 1) as usize, pending, Some(message))
    } else {
        (expected, pending.insert(id, message), None)
    }
}

/// Accepting `arrivals` one after another until one of them is handed out.
pub open spec fn accept_all<M>(
    expected: usize,
    pending: Map<usize, M>,
    arrivals: Seq<(usize, M)>,
) -> (usize, Map<usize, M>, Option<M>)
    decreases arrivals.len(),
{
    if arrivals.len() == 0 {
        (expected, pending, None)
    } else {
        let step = accept(expected, pending, arrivals[0].0, arrivals[0].1);
        if step.2 is Some {
            step
        } else {
            accept_all(step.0, step.1, arrivals.drop_first())
        }
    }
}

/// One request for the next message: the buffer is looked at first, and only
/// when it does not hold the expected message are `arrivals` accepted.
pub open spec fn poll<M>(expected: usize, pending: Map<usize, M>, arrivals: Seq<(usize, M)>) -> (
    usize,
    Map<usize, M>,
    Option<M>,
) {
    let first = take_buffered(expected, pending);
    if first.2 is Some {
        first
    } else {
        accept_all(expected, pending, arrivals)
    }
}

/// The message a non-blocking request handed out, if any.
pub open spec fn handed_out<M>(result: Result<M, WouldBlock>) -> Option<M> {
    match result {
        Ok(message) => Some(message),
        Err(_) => None,
    }
}

/// Accepting one more arrival after `arrivals` handed nothing out is one more
/// step of `accept`.
pub proof fn lemma_accept_all_push<M>(
    expected: usize,
    pending: Map<usize, M>,
    arrivals: Seq<(usize, M)>,
    arrival: (usize, M),
)
    requires
        accept_all(expected, pending, arrivals).2 is None,
    ensures
        ({
            let before = accept_all(expected, pending, arrivals);
            accept_all(expected, pending, arrivals.push(arrival)) == accept(
                before.0,
                before.1,
                arrival.0,
                arrival.1,
            )
        }),
    decreases arrivals.len(),
{
    if arrivals.len() == 0 {
        let one = arrivals.push(arrival);
        let step = accept(expected, pending, arrival.0, arrival.1);
        assert(one.drop_first() =~= Seq::<(usize, M)>::empty());
        assert(accept_all(step.0, step.1, one.drop_first()) == (step.0, step.1, None::<M>));
    } else {
        let step = accept(expected, pending, arrivals[0].0, arrivals[0].1);
        assert(arrivals.push(arrival).drop_first() =~= arrivals.drop_first().push(arrival));
        lemma_accept_all_push(step.0, step.1, arrivals.drop_first(), arrival);
    }
}

/// The reorder state `(expected, pending)` agrees with the messages `received`
/// so far, by id: every id below the expected one has been received (and so
/// handed out), and the buffer holds exactly the received messages from the
/// expected id on.
pub open spec fn agrees_with<M>(
    expected: usize,
    pending: Map<usize, M>,
    received: Map<usize, M>,
) -> bool {
    &&& forall|k: usize| k < expected ==> #[trigger] received.contains_key(k)
    &&& forall|k: usize| #[trigger]
        pending.contains_key(k) <==> (received.contains_key(k) && expected <= k)
    &&& forall|k: usize| #[trigger] pending.contains_key(k) ==> pending[k] == received[k]
}

/// In a state that agrees with what was received, every buffered message has
/// an id at or above the expected one.
pub proof fn law_pending_not_behind<M>(
    expected: usize,
    pending: Map<usize, M>,
    received: Map<usize, M>,
)
    requires
        agrees_with(expected, pending, received),
    ensures
        forall|k: usize| #[trigger] pending.contains_key(k) ==> expected <= k,
{
}

/// An empty reorder buffer that expects id 0 agrees with having received
/// nothing.
pub proof fn law_start_agrees<M>()
    ensures
        agrees_with(0, Map::<usize, M>::empty(), Map::<usize, M>::empty()),
{
}

/// Accepting a message whose id was not received before keeps the state in
/// agreement with what was received, and hands out exactly the message with the
/// expected id, advancing the expected id by one, or nothing, leaving it as it
/// was.
pub proof fn law_accept_in_order<M>(
    expected: usize,
    pending: Map<usize, M>,
    received: Map<usize, M>,
    id: usize,
    message: M,
)
    requires
        agrees_with(expected, pending, received),
        !received.contains_key(id),
        expected < usize::MAX,
    ensures
        ({
            let (next_expected, next_pending, out) = accept(expected, pending, id, message);
            let now_received = received.insert(id, message);
            &&& agrees_with(next_expected, next_pending, now_received)
            &&& out matches Some(m) ==> m == now_received[expected] && next_expected
                == expected + 1
            &&& out is None ==> next_expected == expected
        }),
{
    let (next_expected, next_pending, out) = accept(expected, pending, id, message);
    let now_received = received.insert(id, message);
    if id == expected {
        assert forall|k: usize| #[trigger]
            next_pending.contains_key(k) <==> (now_received.contains_key(k) && next_expected
                <= k) by {
            if next_pending.contains_key(k) {
                assert(received.contains_key(k) && expected <= k);
                assert(k != expected);
            }
        }
    }
}

/// Looking at the buffer keeps the state in agreement with what was received;
/// it hands out the message with the expected id whenever that id was received,
/// advancing the expected id by one, and otherwise hands out nothing and changes
/// nothing.
pub proof fn law_take_in_order<M>(expected: usize, pending: Map<usize, M>, received: Map<usize, M>)
    requires
        agrees_with(expected, pending, received),
        expected < usize::MAX,
    ensures
        ({
            let (next_expected, next_pending, out) = take_buffered(expected, pending);
            &&& agrees_with(next_expected, next_pending, received)
            &&& out matches Some(m) ==> m == received[expected] && next_expected == expected
                + 1
            &&& out is None ==> next_expected == expected && next_pending == pending
                && !received.contains_key(expected)
        }),
{
    if received.contains_key(expected) {
        assert(pending.contains_key(expected));
        assert(is_first_pending(pending, expected));
    }
    let (next_expected, next_pending, out) = take_buffered(expected, pending);
    if out is Some {
        assert forall|k: usize| k < next_expected implies #[trigger] received.contains_key(k) by {
            if k == expected {
                assert(pending.contains_key(k));
            }
        }
    }
}

/// `received` with the messages of `arrivals` added by id, in arrival order.
pub open spec fn with_arrivals<M>(received: Map<usize, M>, arrivals: Seq<(usize, M)>) -> Map<
    usize,
    M,
>
    decreases arrivals.len(),
{
    if arrivals.len() == 0 {
        received
    } else {
        with_arrivals(received.insert(arrivals[0].0, arrivals[0].1), arrivals.drop_first())
    }
}

/// Whether `arrivals` carry distinct ids, none of them among the keys of
/// `received`.
pub open spec fn fresh_arrivals<M>(received: Map<usize, M>, arrivals: Seq<(usize, M)>) -> bool {
    &&& forall|i: int, j: int|
        0 <= i < j < arrivals.len() ==> #[trigger] arrivals[i].0 != #[trigger] arrivals[j].0
    &&& forall|i: int| 0 <= i < arrivals.len() ==> !received.contains_key(#[trigger] arrivals[i].0)
}

/// Accepting fresh arrivals one after another keeps the state in agreement
/// with what was received, the first `taken` arrivals added; it hands out
/// exactly the message with the expected id when one of them carries it, and
/// otherwise takes all of them and hands out nothing.
pub proof fn lemma_accept_all_in_order<M>(
    expected: usize,
    pending: Map<usize, M>,
    received: Map<usize, M>,
    arrivals: Seq<(usize, M)>,
)
    requires
        agrees_with(expected, pending, received),
        fresh_arrivals(received, arrivals),
        expected < usize::MAX,
    ensures
        exists|taken: int|
            {
                &&& 0 <= taken <= arrivals.len()
                &&& #[trigger] accepted_in_order(
                    expected,
                    received,
                    arrivals,
                    taken,
                    accept_all(expected, pending, arrivals),
                )
            },
    decreases arrivals.len(),
{
    let outcome = accept_all(expected, pending, arrivals);
    if arrivals.len() == 0 {
        assert(accepted_in_order(expected, received, arrivals, 0, outcome));
    } else {
        let first = arrivals[0];
        law_accept_in_order(expected, pending, received, first.0, first.1);
        let step = accept(expected, pending, first.0, first.1);
        let now_received = received.insert(first.0, first.1);
        let rest = arrivals.drop_first();
        if step.2 is Some {
            let one = arrivals.take(1);
            assert(one[0] == first);
            assert(one.drop_first() =~= Seq::<(usize, M)>::empty());
            assert(with_arrivals(now_received, one.drop_first()) == now_received);
            assert(with_arrivals(received, one) == now_received);
            assert(accepted_in_order(expected, received, arrivals, 1, outcome));
        } else {
            assert forall|i: int, j: int| 0 <= i < j < rest.len() implies #[trigger] rest[i].0
                != #[trigger] rest[j].0 by {
                assert(rest[i] == arrivals[i + 1] && rest[j] == arrivals[j + 1]);
            }
            assert forall|i: int| 0 <= i < rest.len() implies !now_received.contains_key(
                #[trigger] rest[i].0,
            ) by {
                assert(rest[i] == arrivals[i + 1]);
            }
            lemma_accept_all_in_order(step.0, step.1, now_received, rest);
            let taken = choose|taken: int|
                {
                    &&& 0 <= taken <= rest.len()
                    &&& #[trigger] accepted_in_order(
                        step.0,
                        now_received,
                        rest,
                        taken,
                        accept_all(step.0, step.1, rest),
                    )
                };
            assert(arrivals.take(taken + 1).drop_first() =~= rest.take(taken));
            assert(arrivals.take(taken + 1)[0] == first);
            assert(with_arrivals(received, arrivals.take(taken + 1)) == with_arrivals(
                now_received,
                rest.take(taken),
            ));
            if outcome.2 is None {
                assert forall|i: int| 0 <= i < arrivals.len() implies #[trigger] arrivals[i].0
                    != expected by {
                    if i > 0 {
                        assert(rest[i - 1] == arrivals[i]);
                    }
                }
            }
            assert(accepted_in_order(expected, received, arrivals, taken + 1, outcome));
        }
    }
}

/// The outcome of accepting the first `taken` of `arrivals`, starting from the
/// expected id `expected` with `received` so far, is in order: the state agrees
/// with what was received then; a message handed out is the received one with
/// the expected id, and the expected id advances by one; when nothing is handed
/// out, every arrival was taken, none carries the expected id, and the expected
/// id stays.
pub open spec fn accepted_in_order<M>(
    expected: usize,
    received: Map<usize, M>,
    arrivals: Seq<(usize, M)>,
    taken: int,
    outcome: (usize, Map<usize, M>, Option<M>),
) -> bool {
    let now_received = with_arrivals(received, arrivals.take(taken));
    &&& agrees_with(outcome.0, outcome.1, now_received)
    &&& outcome.2 matches Some(m) ==> m == now_received[expected] && outcome.0 == expected + 1
    &&& outcome.2 is None ==> {
        &&& outcome.0 == expected
        &&& taken == arrivals.len()
        &&& forall|i: int| 0 <= i < arrivals.len() ==> #[trigger] arrivals[i].0 != expected
    }
}

/// Every request of `try_next` or `next` is in order: when the state agrees
/// with the messages received so far and the channel delivers fresh ids, the
/// request hands out the received message with the expected id and advances
/// the expected id by one, or hands out nothing because that id was not
/// received yet; either way the state agrees with what was received after the
/// messages it took from the channel.
pub proof fn law_poll_in_order<M>(
    expected: usize,
    pending: Map<usize, M>,
    received: Map<usize, M>,
    arrivals: Seq<(usize, M)>,
)
    requires
        agrees_with(expected, pending, received),
        fresh_arrivals(received, arrivals),
        expected < usize::MAX,
    ensures
        exists|taken: int|
            {
                &&& 0 <= taken <= arrivals.len()
                &&& #[trigger] accepted_in_order(
                    expected,
                    received,
                    arrivals,
                    taken,
                    poll(expected, pending, arrivals),
                )
            },
{
    law_take_in_order(expected, pending, received);
    let first = take_buffered(expected, pending);
    if first.2 is Some {
        assert(arrivals.take(0) =~= Seq::<(usize, M)>::empty());
        assert(with_arrivals(received, arrivals.take(0)) == received);
        assert(accepted_in_order(expected, received, arrivals, 0, poll(expected, pending, arrivals)));
    } else {
        lemma_accept_all_in_order(expected, pending, received, arrivals);
        assert(poll(expected, pending, arrivals) == accept_all(expected, pending, arrivals));
    }
}

/// Handing out, in turn, every message the buffer holds for the expected id,
/// until it holds none.
pub open spec fn drain<M>(expected: usize, pending: Map<usize, M>) -> (
    usize,
    Map<usize, M>,
    Seq<M>,
)
    decreases usize::MAX - expected,
{
    if expected == usize::MAX {
        (expected, pending, Seq::empty())
    } else {
        let step = take_buffered(expected, pending);
        if step.2 is Some {
            let rest = drain(step.0, step.1);
            (rest.0, rest.1, seq![step.2->0] + rest.2)
        } else {
            (expected, pending, Seq::empty())
        }
    }
}

/// What a consumer that drains the results after each arrival (as `try_next`
/// called until it would block does) has been handed, when `arrivals` came in
/// this order into a new reorder buffer; with the final expected id and buffer.
pub open spec fn deliver_stream<M>(arrivals: Seq<(usize, M)>) -> (usize, Map<usize, M>, Seq<M>)
    decreases arrivals.len(),
{
    if arrivals.len() == 0 {
        (0, Map::empty(), Seq::empty())
    } else {
        let before = deliver_stream(arrivals.drop_last());
        let arrival = arrivals.last();
        let step = accept(before.0, before.1, arrival.0, arrival.1);
        let first = match step.2 {
            Some(m) => seq![m],
            None => Seq::empty(),
        };
        let rest = drain(step.0, step.1);
        (rest.0, rest.1, before.2 + first + rest.2)
    }
}

/// Whether one of `arrivals` carries the id `id`.
pub open spec fn carries_id<M>(arrivals: Seq<(usize, M)>, id: usize) -> bool {
    exists|j: int| 0 <= j < arrivals.len() && #[trigger] arrivals[j].0 == id
}

/// The messages of `arrivals` by id (a later arrival of an id replaces an
/// earlier one).
pub open spec fn received_of<M>(arrivals: Seq<(usize, M)>) -> Map<usize, M>
    decreases arrivals.len(),
{
    if arrivals.len() == 0 {
        Map::empty()
    } else {
        received_of(arrivals.drop_last()).insert(arrivals.last().0, arrivals.last().1)
    }
}

/// The messages of ids `0 .. count` of `received`, in id order.
pub open spec fn in_id_order<M>(received: Map<usize, M>, count: usize) -> Seq<M> {
    Seq::new(count as nat, |i: int| received[i as usize])
}

/// Draining keeps the state in agreement with what was received, hands out the
/// received messages of consecutive ids from the expected one, and stops at the
/// first id not received.
pub proof fn lemma_drain_in_order<M>(
    expected: usize,
    pending: Map<usize, M>,
    received: Map<usize, M>,
    bound: usize,
)
    requires
        agrees_with(expected, pending, received),
        forall|k: usize| #[trigger] received.contains_key(k) ==> k < bound,
        expected <= bound,
        bound < usize::MAX,
    ensures
        ({
            let (last, rest, out) = drain(expected, pending);
            &&& agrees_with(last, rest, received)
            &&& !received.contains_key(last)
            &&& expected <= last <= bound
            &&& out == Seq::new((last - expected) as nat, |i: int| received[(expected + i) as usize])
        }),
    decreases usize::MAX - expected,
{
    law_take_in_order(expected, pending, received);
    let step = take_buffered(expected, pending);
    if step.2 is Some {
        assert(received.contains_key(expected));
        lemma_drain_in_order(step.0, step.1, received, bound);
        let (last, rest, out) = drain(expected, pending);
        let inner = drain(step.0, step.1);
        assert(out == seq![step.2->0] + inner.2);
        assert(out =~= Seq::new((last - expected) as nat, |i: int| received[(expected + i) as usize]));
    } else {
        let (last, rest, out) = drain(expected, pending);
        assert(out =~= Seq::new((last - expected) as nat, |i: int| received[(expected + i) as usize]));
    }
}

/// Results come out in order: when the arrivals carry distinct ids below
/// `bound` and the consumer drains the buffer after each arrival, what it has
/// been handed is exactly the received messages of ids `0, 1, 2, ...` in this
/// order, up to the first id not yet received, and the buffer holds exactly
/// the received messages from there on.
pub proof fn law_stream_in_order<M>(arrivals: Seq<(usize, M)>, bound: usize)
    requires
        forall|i: int, j: int|
            0 <= i < j < arrivals.len() ==> #[trigger] arrivals[i].0 != #[trigger] arrivals[j].0,
        forall|i: int| 0 <= i < arrivals.len() ==> #[trigger] arrivals[i].0 < bound,
        bound < usize::MAX,
    ensures
        ({
            let (expected, pending, handed) = deliver_stream(arrivals);
            let received = received_of(arrivals);
            &&& agrees_with(expected, pending, received)
            &&& !received.contains_key(expected)
            &&& handed == in_id_order(received, expected)
            &&& expected <= bound
            &&& (forall|k: usize| k < bound ==> #[trigger] carries_id(arrivals, k)) ==> expected
                == bound
        }),
    decreases arrivals.len(),
{
    lemma_received_ids(arrivals, bound);
    lemma_stream_prefix(arrivals, bound);
    let (expected, pending, handed) = deliver_stream(arrivals);
    let received = received_of(arrivals);
    assert(expected <= bound) by {
        if expected > bound {
            assert(received.contains_key(bound));
        }
    }
    if forall|k: usize| k < bound ==> #[trigger] carries_id(arrivals, k) {
        if expected < bound {
            assert(carries_id(arrivals, expected));
            assert(received.contains_key(expected));
        }
    }
}

/// The agreement part of `law_stream_in_order`, by induction on the arrivals.
proof fn lemma_stream_prefix<M>(arrivals: Seq<(usize, M)>, bound: usize)
    requires
        forall|i: int, j: int|
            0 <= i < j < arrivals.len() ==> #[trigger] arrivals[i].0 != #[trigger] arrivals[j].0,
        forall|i: int| 0 <= i < arrivals.len() ==> #[trigger] arrivals[i].0 < bound,
        bound < usize::MAX,
    ensures
        ({
            let (expected, pending, handed) = deliver_stream(arrivals);
            let received = received_of(arrivals);
            &&& agrees_with(expected, pending, received)
            &&& !received.contains_key(expected)
            &&& handed == in_id_order(received, expected)
        }),
    decreases arrivals.len(),
{
    lemma_received_ids(arrivals, bound);
    if arrivals.len() == 0 {
        assert(in_id_order(received_of(arrivals), 0) =~= Seq::<M>::empty());
    } else {
        let prefix = arrivals.drop_last();
        assert forall|i: int, j: int| 0 <= i < j < prefix.len() implies #[trigger] prefix[i].0
            != #[trigger] prefix[j].0 by {
            assert(prefix[i] == arrivals[i] && prefix[j] == arrivals[j]);
        }
        assert forall|i: int| 0 <= i < prefix.len() implies #[trigger] prefix[i].0 < bound by {
            assert(prefix[i] == arrivals[i]);
        }
        lemma_stream_prefix(prefix, bound);
        lemma_received_ids(prefix, bound);
        let before = deliver_stream(prefix);
        let received0 = received_of(prefix);
        let arrival = arrivals.last();
        assert(!received0.contains_key(arrival.0)) by {
            if received0.contains_key(arrival.0) {
                let j: int = choose|j: int| 0 <= j < prefix.len() && #[trigger] prefix[j].0 == arrival.0;
                assert(arrivals[j].0 == arrivals[arrivals.len() - 1].0);
            }
        }
        assert(before.0 <= bound) by {
            if before.0 > bound {
                assert(received0.contains_key(bound));
            }
        }
        law_accept_in_order(before.0, before.1, received0, arrival.0, arrival.1);
        let received = received_of(arrivals);
        assert(received == received0.insert(arrival.0, arrival.1));
        let step = accept(before.0, before.1, arrival.0, arrival.1);
        let first = match step.2 {
            Some(m) => seq![m],
            None => Seq::<M>::empty(),
        };
        assert(step.0 <= bound) by {
            if step.0 > bound {
                assert(received.contains_key(bound));
            }
        }
        lemma_drain_in_order(step.0, step.1, received, bound);
        let rest = drain(step.0, step.1);
        assert(before.2 + first =~= in_id_order(received, step.0)) by {
            assert forall|k: usize| k < before.0 implies #[trigger] received0[k] == received[k] by {
                assert(received0.contains_key(k));
                assert(k != arrival.0);
            }
        }
        assert(before.2 + first + rest.2 =~= in_id_order(received, rest.0));
    }
}

/// The ids received from `arrivals` are exactly the ids the arrivals carry.
pub proof fn lemma_received_ids<M>(arrivals: Seq<(usize, M)>, bound: usize)
    requires
        forall|i: int| 0 <= i < arrivals.len() ==> #[trigger] arrivals[i].0 < bound,
    ensures
        forall|k: usize| #[trigger]
            received_of(arrivals).contains_key(k) <==> exists|j: int|
                0 <= j < arrivals.len() && #[trigger] arrivals[j].0 == k,
        forall|k: usize| #[trigger] received_of(arrivals).contains_key(k) ==> k < bound,
    decreases arrivals.len(),
{
    if arrivals.len() > 0 {
        let prefix = arrivals.drop_last();
        assert forall|i: int| 0 <= i < prefix.len() implies #[trigger] prefix[i].0 < bound by {
            assert(prefix[i] == arrivals[i]);
        }
        lemma_received_ids(prefix, bound);
        assert forall|k: usize| #[trigger]
            received_of(arrivals).contains_key(k) <==> exists|j: int|
                0 <= j < arrivals.len() && #[trigger] arrivals[j].0 == k by {
            if received_of(prefix).contains_key(k) {
                let j: int = choose|j: int| 0 <= j < prefix.len() && #[trigger] prefix[j].0 == k;
                assert(arrivals[j].0 == k);
            }
            if exists|j: int| 0 <= j < arrivals.len() && #[trigger] arrivals[j].0 == k {
                let j: int = choose|j: int| 0 <= j < arrivals.len() && #[trigger] arrivals[j].0 == k;
                if j < arrivals.len() - 1 {
                    assert(prefix[j].0 == k);
                }
            }
        }
    }
}

/// The smallest key of `map`, or `None` when it is empty
/// (`std::collections::BTreeMap::first_key_value`, whose documentation says
/// that the first pair holds the minimum key).
#[verifier::external_body]
fn first_key<M>(map: &BTreeMap<usize, M>) -> (first: Option<usize>)
    ensures
        match first {
            Some(k) => is_first_pending(map@, k),
            None => forall|k: usize| !map@.contains_key(k),
        },
{
    map.first_key_value().map(|(k, _)| *k)
}

/// Whether a buffer is full by the two readings `_is_full` takes: full when
/// the channel reported itself full, or when there is a bound and no slot was
/// free.
pub open spec fn full_from_spec(channel_full: bool, bounded: bool, slots: usize) -> bool {
    channel_full || (bounded && slots == 0)
}

/// Whether a buffer is full, from whether the channel reported itself full,
/// whether there is a bound, and how many slots were free.
pub fn full_from(channel_full: bool, bounded: bool, slots: usize) -> (full: bool)
    ensures
        full == full_from_spec(channel_full, bounded, slots),
        full <==> (channel_full || (bounded && slots == 0)),
{
    channel_full || (bounded && slots == 0)
}

/// Whether the messages of `log` carry distinct ids.
pub open spec fn distinct_ids<M>(log: Seq<(usize, M)>) -> bool {
    forall|i: int, j: int| 0 <= i < j < log.len() ==> #[trigger] log[i].0 != #[trigger] log[j].0
}

/// The ids received from `log` are exactly the ids its messages carry.
pub proof fn lemma_received_keys<M>(log: Seq<(usize, M)>)
    ensures
        forall|k: usize| #[trigger] received_of(log).contains_key(k) <==> carries_id(log, k),
    decreases log.len(),
{
    if log.len() > 0 {
        let prefix = log.drop_last();
        lemma_received_keys(prefix);
        assert forall|k: usize| #[trigger] received_of(log).contains_key(k) <==> carries_id(
            log,
            k,
        ) by {
            assert(received_of(log) == received_of(prefix).insert(log.last().0, log.last().1));
            if carries_id(prefix, k) {
                let j: int = choose|j: int| 0 <= j < prefix.len() && #[trigger] prefix[j].0 == k;
                assert(log[j].0 == k);
            }
            if k == log.last().0 {
                assert(log[log.len() - 1].0 == k);
            }
            if carries_id(log, k) {
                let j: int = choose|j: int| 0 <= j < log.len() && #[trigger] log[j].0 == k;
                if j < log.len() - 1 {
                    assert(prefix[j].0 == k);
                }
            }
        }
    }
}

/// Accepting one more message taken from the channel keeps the state in
/// agreement with everything taken, as long as the ids taken are distinct: it
/// hands out the taken message with the expected id, advancing the expected id
/// by one, or buffers the message, whose id is then not the expected one.
pub proof fn lemma_accept_taken<M>(
    expected: usize,
    pending: Map<usize, M>,
    log: Seq<(usize, M)>,
    arrival: (usize, M),
)
    requires
        agrees_with(expected, pending, received_of(log)),
        distinct_ids(log.push(arrival)),
        expected < usize::MAX,
    ensures
        ({
            let (next_expected, next_pending, out) = accept(
                expected,
                pending,
                arrival.0,
                arrival.1,
            );
            let now_received = received_of(log.push(arrival));
            &&& agrees_with(next_expected, next_pending, now_received)
            &&& out matches Some(m) ==> m == now_received[expected] && next_expected
                == expected + 1
            &&& out is None ==> next_expected == expected && arrival.0 != expected
            &&& now_received == received_of(log).insert(arrival.0, arrival.1)
            &&& distinct_ids(log)
        }),
{
    let longer = log.push(arrival);
    assert(longer.drop_last() =~= log);
    assert(distinct_ids(log)) by {
        assert forall|i: int, j: int| 0 <= i < j < log.len() implies #[trigger] log[i].0
            != #[trigger] log[j].0 by {
            assert(longer[i] == log[i] && longer[j] == log[j]);
        }
    }
    lemma_received_keys(log);
    assert(!received_of(log).contains_key(arrival.0)) by {
        if received_of(log).contains_key(arrival.0) {
            assert(carries_id(log, arrival.0));
            let j: int = choose|j: int| 0 <= j < log.len() && #[trigger] log[j].0 == arrival.0;
            assert(longer[j].0 == longer[log.len() as int].0);
        }
    }
    law_accept_in_order(expected, pending, received_of(log), arrival.0, arrival.1);
}

/// A buffer is full exactly when it holds at least as many items as it has
/// slots, and then no slot is free; below the capacity a slot is free, so a
/// producer waiting for space stops waiting as soon as the size drops below
/// the capacity.
pub proof fn law_full_exactly_at_capacity(max_buffer_size: usize, current_size: usize)
    ensures
        is_full_spec(max_buffer_size, current_size) <==> current_size >= max_buffer_size,
        is_full_spec(max_buffer_size, current_size) <==> free_slots_spec(
            max_buffer_size,
            current_size,
        ) == 0,
        current_size < max_buffer_size ==> free_slots_spec(max_buffer_size, current_size)
            + current_size == max_buffer_size,
{
}

/// Publishing the size with a bound stores the number of buffered messages
/// and wakes a waiting producer exactly when that number is below the
/// capacity; without a bound nothing is published.
pub proof fn law_publication_wakes_below_capacity<M>(
    buffer: Option<Arc<OrderedBufferState>>,
    pending: Map<usize, M>,
)
    requires
        pending.len() <= usize::MAX,
    ensures
        match buffer {
            Some(state) => publication(buffer, pending) matches Some((size, wake)) && size
                == pending.len() && (wake <==> pending.len() < state.capacity()),
            None => publication(buffer, pending) is None,
        },
{
}

/// Convert a series of (message index, message) into an ordered series of
/// messages.
#[verifier::reject_recursive_types(M)]
pub struct OrderedResults<M> {
    // Receives pairs of (message sequence id, message), logging them:
    inbox: Inbox<M>,
    next_message_id: usize,
    // Map from message id to message, for ids higher than next_message_id:
    later_messages: BTreeMap<usize, M>,
    buffer_state: Option<Arc<OrderedBufferState>>,
    // The receipts of the last publication of the size, if there is a bound:
    last_publication: Option<(Published, Option<Woken>)>,
}

/// What publishing the buffer's size does, as `(size published, whether a
/// waiting producer is woken)`: with a shared buffer state, the number of
/// buffered messages is published, and a producer is woken when that number is
/// below the capacity; without one, nothing happens.
pub open spec fn publication<M>(
    buffer: Option<Arc<OrderedBufferState>>,
    pending: Map<usize, M>,
) -> Option<(usize, bool)> {
    match buffer {
        Some(state) => Some((pending.len() as usize, pending.len() < state.capacity())),
        None => None,
    }
}

/// What the receipts of a publication show was done, as `(size published,
/// whether a waiting producer was woken)`.
pub open spec fn receipts_show(receipts: Option<(Published, Option<Woken>)>) -> Option<
    (usize, bool),
> {
    match receipts {
        Some((published, woken)) => Some((published.size(), woken is Some)),
        None => None,
    }
}

/// An error indicating an operation would block.
#[derive(Debug)]
pub struct WouldBlock;

impl<M> OrderedResults<M> {
    /// The id of the next message to hand out.
    pub closed spec fn expected_id(&self) -> usize {
        self.next_message_id
    }

    /// The messages that arrived ahead of their turn, by id.
    pub closed spec fn pending(&self) -> Map<usize, M> {
        self.later_messages@
    }

    /// The channel the messages arrive on.
    pub closed spec fn channel(&self) -> crossbeam_channel::Receiver<(usize, M)> {
        self.inbox.receiver()
    }

    /// Every message taken from the channel so far, in the order taken.
    pub closed spec fn taken(&self) -> Seq<(usize, M)> {
        self.inbox.taken()
    }

    /// Whether a blocking receive found the channel empty with every sender gone.
    pub closed spec fn channel_closed(&self) -> bool {
        self.inbox.closed()
    }

    /// Whether the last receive from the channel found no message in it.
    pub closed spec fn found_channel_empty(&self) -> bool {
        self.inbox.found_empty()
    }

    /// The back-pressure state shared with the producer, if there is a bound.
    pub closed spec fn shared_buffer(&self) -> Option<Arc<OrderedBufferState>> {
        self.buffer_state
    }

    /// The size this reorder buffer last stored in the shared size cell, by its
    /// receipt (`None` when there is no bound, and so no cell).
    pub closed spec fn published_size(&self) -> Option<usize> {
        match self.last_publication {
            Some((published, _)) => Some(published.size()),
            None => None,
        }
    }

    /// Whether the last publication of the size also woke a waiting producer,
    /// by its receipt.
    pub closed spec fn woke_producer(&self) -> bool {
        self.last_publication matches Some((_, Some(_)))
    }

    /// Whether the last publication this buffer made is `update`, as
    /// `publication` describes it.
    pub open spec fn last_publication_is(&self, update: Option<(usize, bool)>) -> bool {
        match update {
            Some((size, woke)) => self.published_size() == Some(size) && self.woke_producer()
                == woke,
            None => self.published_size() is None,
        }
    }

    /// The invariant: with a shared buffer state, the size last published is the
    /// number of buffered messages; without one, nothing was published.
    pub open spec fn well_formed(&self) -> bool {
        self.published_size() == match publication(self.shared_buffer(), self.pending()) {
            Some((size, _)) => Some(size),
            None => None::<usize>,
        }
    }

    /// The state agrees with every message taken from the channel so far:
    /// every id below the expected one was taken and handed out, and the
    /// buffer holds exactly the taken messages from the expected id on.
    pub open spec fn in_order(&self) -> bool {
        agrees_with(self.expected_id(), self.pending(), received_of(self.taken()))
    }

    /// Create a new instance.
    pub fn new(
        receiver: crossbeam_channel::Receiver<(usize, M)>,
        buffer_size: Option<usize>,
    ) -> (created: (Self, Option<Arc<OrderedBufferState>>))
        ensures
            created.0.expected_id() == 0,
            created.0.pending() == Map::<usize, M>::empty(),
            created.0.channel() == receiver,
            created.0.taken() == Seq::<(usize, M)>::empty(),
            !created.0.channel_closed(),
            created.0.in_order(),
            created.0.shared_buffer() == created.1,
            created.0.well_formed(),
            created.0.published_size() == match buffer_size {
                Some(_) => Some(0usize),
                None => None::<usize>,
            },
            !created.0.woke_producer(),
            match buffer_size {
                Some(max_buffer_size) => created.1 matches Some(state) && state.capacity()
                    == max_buffer_size,
                None => created.1 is None,
            },
    {
        // The shared size cell starts out holding the size of the empty buffer.
        let initial_size: usize = 0;
        let (buffer_state, producer, last_publication) = match buffer_size {
            Some(max_buffer_size) => {
                let (state, published) = OrderedBufferState::with_capacity(
                    max_buffer_size,
                    initial_size,
                );
                let state = Arc::new(state);
                (Some(state.clone()), Some(state), Some((published, None)))
            },
            None => (None, None, None),
        };
        let later_messages: BTreeMap<usize, M> = BTreeMap::new();
        let created = OrderedResults {
            inbox: Inbox::new(receiver),
            next_message_id: 0,
            later_messages,
            buffer_state,
            last_publication,
        };
        assert(received_of(created.taken()) == Map::<usize, M>::empty());
        (created, producer)
    }

    /// The id of the next message to hand out.
    pub fn next_message_id(&self) -> (id: usize)
        ensures
            id == self.expected_id(),
    {
        self.next_message_id
    }

    /// Must be called when the size of `self.later_messages` changes.
    ///
    /// Stores the number of buffered messages in the shared size cell and,
    /// when that number is below the capacity, wakes one waiting producer;
    /// returns the receipts of what it did, which `publication` describes.
    fn buffer_size_changed(&self) -> (update: Option<(Published, Option<Woken>)>)
        ensures
            receipts_show(update) == publication(self.shared_buffer(), self.pending()),
            match self.shared_buffer() {
                Some(state) => update matches Some((published, woken)) && published.size()
                    == self.pending().len() && (woken is Some <==> self.pending().len()
                    < state.capacity()),
                None => update is None,
            },
    {
        if let Some(buffer_state) = &self.buffer_state {
            let current_buffer_size: usize = self.later_messages.len();
            let published = publish_size(&buffer_state.current_buffer_size, current_buffer_size);
            let woken = if current_buffer_size < buffer_state.max_buffer_size {
                Some(wake_one(&buffer_state.still_has_space))
            } else {
                None
            };
            Some((published, woken))
        } else {
            None
        }
    }

    /// Publishes the buffer's size (`buffer_size_changed`) and keeps the
    /// receipts.
    fn publish_buffer_size(&mut self)
        ensures
            final(self).last_publication_is(
                publication(final(self).shared_buffer(), final(self).pending()),
            ),
            final(self).well_formed(),
            final(self).expected_id() == old(self).expected_id(),
            final(self).pending() == old(self).pending(),
            final(self).inbox == old(self).inbox,
            final(self).shared_buffer() == old(self).shared_buffer(),
    {
        self.last_publication = self.buffer_size_changed();
    }

    /// Book keeping for a processed message we are about to return.
    fn about_to_return_next_message(&mut self)
        requires
            old(self).expected_id() < usize::MAX,
        ensures
            final(self).expected_id() == old(self).expected_id() + 1,
            final(self).pending() == old(self).pending(),
            final(self).inbox == old(self).inbox,
            final(self).shared_buffer() == old(self).shared_buffer(),
            final(self).last_publication_is(
                publication(final(self).shared_buffer(), final(self).pending()),
            ),
            final(self).well_formed(),
    {
        self.next_message_id = self.next_message_id + 1;
        self.publish_buffer_size();
    }

    /// Check if the next messages is already available in the buffer, and if so
    /// return it.
    fn get_next_if_already_buffered(&mut self) -> (next: Option<M>)
        requires
            old(self).expected_id() < usize::MAX,
        ensures
            (final(self).expected_id(), final(self).pending(), next) == take_buffered(
                old(self).expected_id(),
                old(self).pending(),
            ),
            final(self).inbox == old(self).inbox,
            final(self).shared_buffer() == old(self).shared_buffer(),
            next is Some ==> final(self).last_publication_is(
                publication(final(self).shared_buffer(), final(self).pending()),
            ),
            next is None ==> final(self).last_publication == old(self).last_publication,
            old(self).well_formed() ==> final(self).well_formed(),
    {
        match first_key(&self.later_messages) {
            Some(first) => {
                if first == self.next_message_id {
                    let result = self.later_messages.remove(&first).unwrap();
                    self.about_to_return_next_message();
                    Some(result)
                } else {
                    None
                }
            },
            None => None,
        }
    }

    /// Handle a newly arrived message, returning it if it is the next message
    /// based on message id.
    fn handle_new_message(&mut self, id: usize, message: M) -> (next: Option<M>)
        requires
            old(self).expected_id() < usize::MAX,
        ensures
            (final(self).expected_id(), final(self).pending(), next) == accept(
                old(self).expected_id(),
                old(self).pending(),
                id,
                message,
            ),
            final(self).inbox == old(self).inbox,
            final(self).shared_buffer() == old(self).shared_buffer(),
            final(self).last_publication_is(
                publication(final(self).shared_buffer(), final(self).pending()),
            ),
            final(self).well_formed(),
    {
        if id == self.next_message_id {
            self.about_to_return_next_message();
            Some(message)
        } else {
            self.later_messages.insert(id, message);
            self.publish_buffer_size();
            None
        }
    }

    /// Return next message in a non-blocking manner.
    ///
    /// The buffer is looked at first; then up to 8 messages waiting in the
    /// channel are taken and accepted, until one of them is the expected
    /// message. The outcome is `poll` of the state before the call and of the
    /// messages taken, which the channel's log gains. When the ids taken are
    /// distinct, the result is in order: the message handed out is the one
    /// taken with the expected id, and `WouldBlock` means it was not taken yet.
    pub fn try_next(&mut self) -> (next: Result<M, WouldBlock>)
        requires
            old(self).expected_id() < usize::MAX,
            old(self).well_formed(),
        ensures
            final(self).well_formed(),
            exists|arrivals: Seq<(usize, M)>|
                {
                    &&& arrivals.len() <= 8
                    &&& final(self).taken() == old(self).taken() + arrivals
                    &&& next is Err ==> arrivals.len() == 8 || final(self).found_channel_empty()
                    &&& #[trigger] poll(old(self).expected_id(), old(self).pending(), arrivals) == (
                        final(self).expected_id(),
                        final(self).pending(),
                        handed_out(next),
                    )
                },
            old(self).in_order() && distinct_ids(final(self).taken()) ==> {
                &&& final(self).in_order()
                &&& match next {
                    Ok(message) => message == received_of(final(self).taken())[old(
                        self,
                    ).expected_id()] && final(self).expected_id() == old(self).expected_id() + 1,
                    Err(_) => final(self).expected_id() == old(self).expected_id()
                        && !received_of(final(self).taken()).contains_key(
                        old(self).expected_id(),
                    ),
                }
            },
            final(self).pending() != old(self).pending() || final(self).expected_id() != old(
                self,
            ).expected_id() ==> match final(self).shared_buffer() {
                Some(state) => final(self).published_size() == Some(
                    final(self).pending().len() as usize,
                ) && final(self).woke_producer() == (final(self).pending().len()
                    < state.capacity()),
                None => true,
            },
            final(self).channel() == old(self).channel(),
            final(self).channel_closed() == old(self).channel_closed(),
            final(self).shared_buffer() == old(self).shared_buffer(),
    {
        let ghost expected0 = self.expected_id();
        let ghost pending0 = self.pending();
        let ghost log0 = self.taken();
        proof {
            if self.in_order() {
                law_take_in_order(expected0, pending0, received_of(log0));
            }
        }
        if let Some(message) = self.get_next_if_already_buffered() {
            assert(self.taken() == log0 + Seq::<(usize, M)>::empty());
            assert(poll(expected0, pending0, Seq::<(usize, M)>::empty()) == (
                self.expected_id(),
                self.pending(),
                handed_out::<M>(Ok(message)),
            ));
            return Ok(message);
        }
        let ghost mut arrivals: Seq<(usize, M)> = Seq::empty();
        let mut attempts: usize = 0;
        // Next, check if it's in the receiver queue.
        while attempts < 8
            invariant
                attempts <= 8,
                arrivals.len() == attempts,
                take_buffered(expected0, pending0).2 is None,
                accept_all(expected0, pending0, arrivals) == (
                    self.expected_id(),
                    self.pending(),
                    None::<M>,
                ),
                self.taken() == log0 + arrivals,
                self.expected_id() == expected0,
                expected0 == old(self).expected_id(),
                pending0 == old(self).pending(),
                log0 == old(self).taken(),
                expected0 < usize::MAX,
                self.channel() == old(self).channel(),
                self.channel_closed() == old(self).channel_closed(),
                self.shared_buffer() == old(self).shared_buffer(),
                self.well_formed(),
                old(self).in_order() && distinct_ids(self.taken()) ==> self.in_order()
                    && !received_of(self.taken()).contains_key(expected0),
                arrivals.len() > 0 ==> self.last_publication_is(
                    publication(self.shared_buffer(), self.pending()),
                ),
            ensures
                attempts == 8 || self.found_channel_empty(),
                arrivals.len() == attempts,
                take_buffered(expected0, pending0).2 is None,
                accept_all(expected0, pending0, arrivals) == (
                    self.expected_id(),
                    self.pending(),
                    None::<M>,
                ),
                self.taken() == log0 + arrivals,
                self.expected_id() == expected0,
                expected0 == old(self).expected_id(),
                pending0 == old(self).pending(),
                log0 == old(self).taken(),
                self.channel() == old(self).channel(),
                self.channel_closed() == old(self).channel_closed(),
                self.shared_buffer() == old(self).shared_buffer(),
                self.well_formed(),
                old(self).in_order() && distinct_ids(self.taken()) ==> self.in_order()
                    && !received_of(self.taken()).contains_key(expected0),
                arrivals.len() > 0 ==> self.last_publication_is(
                    publication(self.shared_buffer(), self.pending()),
                ),
            decreases 8 - attempts,
        {
            let ghost log_before = self.taken();
            match receive_now(&mut self.inbox) {
                Some((id, message)) => {
                    let ghost arrival = (id, message);
                    proof {
                        lemma_accept_all_push(expected0, pending0, arrivals, arrival);
                        arrivals = arrivals.push(arrival);
                        assert(self.taken() == log0 + arrivals);
                    }
                    let ghost pending_before = self.pending();
                    let handed = self.handle_new_message(id, message);
                    proof {
                        if old(self).in_order() && distinct_ids(self.taken()) {
                            lemma_accept_taken(expected0, pending_before, log_before, arrival);
                        }
                    }
                    if let Some(message) = handed {
                        assert(poll(expected0, pending0, arrivals) == (
                            self.expected_id(),
                            self.pending(),
                            handed_out::<M>(Ok(message)),
                        ));
                        return Ok(message);
                    }
                },
                None => {
                    // No message in the receiver, and we don't want to block:
                    break ;
                },
            }
            attempts = attempts + 1;
        }
        // Failed to get a result without blocking:
        proof {
            if arrivals.len() == 0 {
                assert(accept_all(expected0, pending0, arrivals) == (expected0, pending0, None::<M>));
            }
        }
        assert(poll(expected0, pending0, arrivals) == (
            self.expected_id(),
            self.pending(),
            handed_out::<M>(Err(WouldBlock)),
        ));
        Err(WouldBlock)
    }

    /// Return next message in blocking manner.
    ///
    /// `None` means no more messages: the channel was found empty with every
    /// sender gone before the expected message came. The outcome is `poll` of
    /// the state before the call and of the messages taken, which the channel's
    /// log gains; when the ids taken are distinct, the result is in order. A
    /// single call takes at most `u64::MAX` messages from the channel.
    pub fn next(&mut self) -> (next: Option<M>)
        requires
            old(self).expected_id() < usize::MAX,
            old(self).well_formed(),
        ensures
            final(self).well_formed(),
            exists|arrivals: Seq<(usize, M)>|
                {
                    &&& final(self).taken() == old(self).taken() + arrivals
                    &&& #[trigger] poll(old(self).expected_id(), old(self).pending(), arrivals) == (
                        final(self).expected_id(),
                        final(self).pending(),
                        next,
                    )
                    &&& next is None ==> final(self).channel_closed() || arrivals.len()
                        == u64::MAX
                },
            old(self).in_order() && distinct_ids(final(self).taken()) ==> {
                &&& final(self).in_order()
                &&& match next {
                    Some(message) => message == received_of(final(self).taken())[old(
                        self,
                    ).expected_id()] && final(self).expected_id() == old(self).expected_id() + 1,
                    None => final(self).expected_id() == old(self).expected_id()
                        && !received_of(final(self).taken()).contains_key(
                        old(self).expected_id(),
                    ),
                }
            },
            final(self).pending() != old(self).pending() || final(self).expected_id() != old(
                self,
            ).expected_id() ==> match final(self).shared_buffer() {
                Some(state) => final(self).published_size() == Some(
                    final(self).pending().len() as usize,
                ) && final(self).woke_producer() == (final(self).pending().len()
                    < state.capacity()),
                None => true,
            },
            final(self).channel() == old(self).channel(),
            final(self).shared_buffer() == old(self).shared_buffer(),
    {
        let ghost expected0 = self.expected_id();
        let ghost pending0 = self.pending();
        let ghost log0 = self.taken();
        proof {
            if self.in_order() {
                law_take_in_order(expected0, pending0, received_of(log0));
            }
        }
        if let Some(message) = self.get_next_if_already_buffered() {
            assert(self.taken() == log0 + Seq::<(usize, M)>::empty());
            assert(poll(expected0, pending0, Seq::<(usize, M)>::empty()) == (
                self.expected_id(),
                self.pending(),
                Some(message),
            ));
            return Some(message);
        }
        let ghost mut arrivals: Seq<(usize, M)> = Seq::empty();
        let mut received: u64 = 0;
        // Next, check if it's in the receiver queue.
        while received < u64::MAX
            invariant
                arrivals.len() == received,
                take_buffered(expected0, pending0).2 is None,
                accept_all(expected0, pending0, arrivals) == (
                    self.expected_id(),
                    self.pending(),
                    None::<M>,
                ),
                self.taken() == log0 + arrivals,
                self.expected_id() == expected0,
                expected0 == old(self).expected_id(),
                pending0 == old(self).pending(),
                log0 == old(self).taken(),
                expected0 < usize::MAX,
                self.channel() == old(self).channel(),
                self.shared_buffer() == old(self).shared_buffer(),
                self.well_formed(),
                old(self).in_order() && distinct_ids(self.taken()) ==> self.in_order()
                    && !received_of(self.taken()).contains_key(expected0),
                arrivals.len() > 0 ==> self.last_publication_is(
                    publication(self.shared_buffer(), self.pending()),
                ),
            decreases u64::MAX - received,
        {
            let ghost log_before = self.taken();
            match receive_blocking(&mut self.inbox) {
                Some((id, message)) => {
                    let ghost arrival = (id, message);
                    proof {
                        lemma_accept_all_push(expected0, pending0, arrivals, arrival);
                        arrivals = arrivals.push(arrival);
                        assert(self.taken() == log0 + arrivals);
                    }
                    let ghost pending_before = self.pending();
                    let handed = self.handle_new_message(id, message);
                    proof {
                        if old(self).in_order() && distinct_ids(self.taken()) {
                            lemma_accept_taken(expected0, pending_before, log_before, arrival);
                        }
                    }
                    if let Some(message) = handed {
                        assert(poll(expected0, pending0, arrivals) == (
                            self.expected_id(),
                            self.pending(),
                            Some(message),
                        ));
                        return Some(message);
                    }
                },
                None => {
                    // Out of messages apparently (even if we've buffered some
                    // future messages) since next expected message id was
                    // never seen.
                    assert(self.channel_closed());
                    proof {
                        if arrivals.len() == 0 {
                            assert(accept_all(expected0, pending0, arrivals) == (
                                expected0,
                                pending0,
                                None::<M>,
                            ));
                        }
                    }
                    assert(poll(expected0, pending0, arrivals) == (
                        self.expected_id(),
                        self.pending(),
                        None::<M>,
                    ));
                    return None;
                },
            }
            received = received + 1;
        }
        proof {
            if arrivals.len() == 0 {
                assert(accept_all(expected0, pending0, arrivals) == (expected0, pending0, None::<M>));
            }
        }
        assert(poll(expected0, pending0, arrivals) == (
            self.expected_id(),
            self.pending(),
            None::<M>,
        ));
        None
    }

    /// Drops every buffered message and publishes the empty buffer, so that a
    /// producer waiting for space wakes up. Meant for when the results are no
    /// longer wanted; the owner of an `OrderedResults` calls it before letting
    /// it go.
    pub fn release_buffer(&mut self)
        ensures
            final(self).pending() == Map::<usize, M>::empty(),
            final(self).expected_id() == old(self).expected_id(),
            final(self).channel() == old(self).channel(),
            final(self).taken() == old(self).taken(),
            final(self).channel_closed() == old(self).channel_closed(),
            final(self).shared_buffer() == old(self).shared_buffer(),
            final(self).last_publication_is(
                publication(final(self).shared_buffer(), Map::<usize, M>::empty()),
            ),
            final(self).well_formed(),
            match final(self).shared_buffer() {
                Some(state) => final(self).published_size() == Some(0usize)
                    && final(self).woke_producer() == (0 < state.capacity()),
                None => final(self).published_size() is None,
            },
    {
        // Make sure any waiting threads get woken up:
        self.later_messages.clear();
        self.publish_buffer_size();
    }

    /// Is the buffer full? Used just for testing.
    ///
    /// The answer is `full_from` of what the channel reported and, with a
    /// bound, of the free slots read; both readings come from state that other
    /// threads change. With a bound of zero it is always full.
    pub fn _is_full(&self) -> (full: bool)
        ensures
            exists|channel_full: bool, slots: usize|
                {
                    &&& full == #[trigger] full_from_spec(
                        channel_full,
                        self.shared_buffer() is Some,
                        slots,
                    )
                    &&& self.shared_buffer() matches Some(state) ==> slots <= state.capacity()
                },
            self.shared_buffer() matches Some(state) && state.capacity() == 0 ==> full,
    {
        let channel_full: bool = channel_is_full(&self.inbox);
        let slots: usize = match &self.buffer_state {
            Some(buffer_state) => {
                if channel_full {
                    0
                } else {
                    buffer_state.slots_available()
                }
            },
            None => 0,
        };
        full_from(channel_full, self.buffer_state.is_some(), slots)
    }
}

} // verus!
