//! Batches of events on their way to Node.

use crate::bridge::{Bridge, BridgeView, ConnectionState};
use crate::messages::{events_view, JsEvent, JsEventView};
use vstd::prelude::*;

verus! {

/// How many items fit a vector before it grows: `Vec::capacity`, which is at
/// least the vector's length. What it is beyond that is the allocator's choice.
#[verifier::external_body]
fn capacity<T>(items: &Vec<T>) -> (slots: usize)
    ensures
        slots >= items@.len(),
{
    items.capacity()
}

/// The sum of a run of sizes.
pub open spec fn total(sizes: Seq<usize>) -> int
    decreases sizes.len(),
{
    if sizes.len() == 0 {
        0
    } else {
        total(sizes.drop_last()) + sizes.last()
    }
}

/// What a batch costs: the slots its events take, each of this size, and the
/// payloads, up to the largest number there is.
pub open spec fn cost_of(slots: int, slot: int, payloads: int) -> int {
    if slots * slot + payloads <= usize::MAX {
        slots * slot + payloads
    } else {
        usize::MAX as int
    }
}

/// A sum of sizes is never negative.
pub proof fn lemma_total_nonneg(sizes: Seq<usize>)
    ensures
        total(sizes) >= 0,
    decreases sizes.len(),
{
    if sizes.len() > 0 {
        lemma_total_nonneg(sizes.drop_last());
    }
}

/// The sum of a run's front is at most the sum of the run.
pub proof fn lemma_total_take(sizes: Seq<usize>, i: int)
    requires
        0 <= i <= sizes.len(),
    ensures
        0 <= total(sizes.take(i)) <= total(sizes),
    decreases sizes.len() - i,
{
    lemma_total_nonneg(sizes.take(i));
    if i == sizes.len() {
        assert(sizes.take(i) =~= sizes);
    } else {
        assert(sizes.take(i + 1).drop_last() =~= sizes.take(i));
        lemma_total_take(sizes, i + 1);
    }
}

/// Without one of them, a run of sizes comes to that much less.
pub proof fn lemma_total_remove(sizes: Seq<usize>, i: int)
    requires
        0 <= i < sizes.len(),
    ensures
        total(sizes.remove(i)) == total(sizes) - sizes[i],
    decreases sizes.len(),
{
    let rest = sizes.remove(i);
    if i == sizes.len() - 1 {
        assert(rest =~= sizes.drop_last());
    } else {
        lemma_total_remove(sizes.drop_last(), i);
        assert(rest.drop_last() =~= sizes.drop_last().remove(i));
        assert(rest.last() == sizes.last());
    }
}

/// A run of zeros comes to nothing.
pub proof fn lemma_total_zero(sizes: Seq<usize>)
    requires
        forall|i: int| 0 <= i < sizes.len() ==> sizes[i] == 0,
    ensures
        total(sizes) == 0,
    decreases sizes.len(),
{
    if sizes.len() > 0 {
        lemma_total_zero(sizes.drop_last());
    }
}

/// A run of sizes that comes to nothing is a run of zeros.
pub proof fn lemma_total_none(sizes: Seq<usize>)
    requires
        total(sizes) == 0,
    ensures
        forall|i: int| 0 <= i < sizes.len() ==> sizes[i] == 0,
    decreases sizes.len(),
{
    if sizes.len() > 0 {
        lemma_total_nonneg(sizes.drop_last());
        lemma_total_none(sizes.drop_last());
        assert forall|i: int| 0 <= i < sizes.len() implies sizes[i] == 0 by {
            if i < sizes.len() - 1 {
                assert(sizes.drop_last()[i] == sizes[i]);
            }
        }
    }
}

/// What a batch costs that takes this many slots of this size and whose
/// payloads take these many bytes each.
pub fn batch_cost(slots: usize, slot: usize, payloads: &Vec<usize>) -> (bytes: usize)
    ensures
        bytes == cost_of(slots as int, slot as int, total(payloads@)),
{
    let mut bytes: usize = match slots.checked_mul(slot) {
        Some(bytes) => bytes,
        None => usize::MAX,
    };
    let mut i: usize = 0;
    proof {
        vstd::arithmetic::mul::lemma_mul_nonnegative(slots as int, slot as int);
    }
    assert(payloads@.take(0) =~= Seq::empty());
    while i < payloads.len()
        invariant
            i <= payloads@.len(),
            bytes == cost_of(slots as int, slot as int, total(payloads@.take(i as int))),
            slots * slot >= 0,
        decreases payloads@.len() - i,
    {
        proof {
            lemma_total_nonneg(payloads@.take(i as int));
            assert(payloads@.take(i + 1).drop_last() =~= payloads@.take(i as int));
        }
        bytes = bytes.saturating_add(payloads[i]);
        i += 1;
    }
    assert(payloads@.take(i as int) =~= payloads@);
    bytes
}

/// Whether a payload's size may be what an event retains: a message at least
/// its own bytes, any other event none.
pub open spec fn retains(event: JsEvent, size: usize) -> bool {
    match event {
        JsEvent::Message { data, .. } => size >= data@.len(),
        _ => size == 0,
    }
}

/// Whether this many bytes may be what a batch of events retains: the room its
/// events were given and the room each message was given.
pub open spec fn batch_retains(events: Seq<JsEvent>, bytes: usize) -> bool {
    exists|slots: usize, payloads: Seq<usize>|
        {
            &&& slots >= events.len()
            &&& payloads.len() == events.len()
            &&& forall|i: int| 0 <= i < events.len() ==> #[trigger] retains(events[i], payloads[i])
            &&& bytes == #[trigger] cost_of(
                slots as int,
                vstd::layout::size_of::<JsEvent>() as int,
                total(payloads),
            )
        }
}

/// What a batch of events retains until Node is done with it: the room its
/// events were given and the room each message was given. How much that is
/// beyond what they hold is the allocator's choice.
pub fn batch_bytes(events: &Vec<JsEvent>) -> (bytes: usize)
    ensures
        batch_retains(events@, bytes),
{
    let mut payloads: Vec<usize> = Vec::new();
    let mut i: usize = 0;
    while i < events.len()
        invariant
            i <= events@.len(),
            payloads@.len() == i,
            forall|k: int| 0 <= k < i ==> #[trigger] retains(events@[k], payloads@[k]),
        decreases events@.len() - i,
    {
        let size: usize = match &events[i] {
            JsEvent::Message { data, .. } => capacity(data),
            JsEvent::Open { .. } => 0,
            JsEvent::Close { .. } => 0,
        };
        assert(retains(events@[i as int], size));
        payloads.push(size);
        i += 1;
    }
    let slots: usize = capacity(events);
    batch_cost(slots, std::mem::size_of::<JsEvent>(), &payloads)
}

/// Events on their way to Node, and what they retain until it is done with them.
pub struct Batch {
    pub events: Vec<JsEvent>,
    pub bytes: usize,
}

/// Whether a run of events tells of a connection's close.
pub open spec fn tells_close(events: Seq<JsEventView>, id: u64) -> bool {
    exists|i: int|
        0 <= i < events.len() && (#[trigger] events[i] matches JsEventView::Close { id: gone, .. }
            && gone == id)
}

/// The budgets that stay once these events are told: those of connections whose
/// close is not among them, and of live ones.
pub open spec fn forgotten(
    states: Map<u64, ConnectionState>,
    events: Seq<JsEventView>,
) -> Map<u64, ConnectionState> {
    Map::new(
        |id: u64| states.contains_key(id) && (states[id].live || !tells_close(events, id)),
        |id: u64| states[id],
    )
}

/// Nobody sends on the connections any more whose close is among these events:
/// drop their budgets.
pub fn forget_closed(bridge: &mut Bridge, events: &Vec<JsEvent>)
    ensures
        final(bridge)@ == (BridgeView {
            states: forgotten(old(bridge)@.states, events_view(events@)),
            ..old(bridge)@
        }),
{
    let ghost told = events_view(events@);
    let ghost before = bridge@;
    let mut i: usize = 0;
    assert(forgotten(before.states, told.take(0)) =~= before.states);
    while i < events.len()
        invariant
            i <= events@.len(),
            told == events_view(events@),
            bridge@ == (BridgeView {
                states: forgotten(before.states, told.take(i as int)),
                ..before
            }),
        decreases events@.len() - i,
    {
        let ghost here = told.take(i as int);
        let ghost there = told.take(i + 1);
        assert(there =~= here.push(told[i as int]));
        assert forall|id: u64| tells_close(there, id) == (tells_close(here, id) || (
        told[i as int] matches JsEventView::Close { id: gone, .. } && gone == id)) by {
            if tells_close(here, id) {
                let k = choose|k: int|
                    0 <= k < here.len() && (#[trigger] here[k] matches JsEventView::Close {
                        id: gone,
                        ..
                    } && gone == id);
                assert(there[k] == here[k]);
            }
            assert(there[i as int] == told[i as int]);
            if tells_close(there, id) {
                let k = choose|k: int|
                    0 <= k < there.len() && (#[trigger] there[k] matches JsEventView::Close {
                        id: gone,
                        ..
                    } && gone == id);
                if k < i {
                    assert(here[k] == there[k]);
                }
            }
        }
        if let JsEvent::Close { id, .. } = &events[i] {
            bridge.forget(*id);
        }
        assert(bridge@.states =~= forgotten(before.states, there));
        i += 1;
    }
    assert(told.take(i as int) =~= told);
}

/// A batch costs the room for its events and all of their payloads, and the
/// largest number there is where that is more.
pub proof fn law_batch_costs_what_it_takes(slots: nat, slot: nat, payloads: nat)
    ensures
        ({
            let all = slots * slot + payloads;
            &&& all <= usize::MAX ==> cost_of(slots as int, slot as int, payloads as int) == all
            &&& all > usize::MAX ==> cost_of(slots as int, slot as int, payloads as int)
                == usize::MAX
        }),
{
}

/// The bytes of the messages in a run of events.
pub open spec fn message_bytes(events: Seq<JsEvent>) -> int
    decreases events.len(),
{
    if events.len() == 0 {
        0
    } else {
        message_bytes(events.drop_last()) + match events.last() {
            JsEvent::Message { data, .. } => data@.len() as int,
            _ => 0,
        }
    }
}

proof fn lemma_message_bytes(events: Seq<JsEvent>, payloads: Seq<usize>)
    requires
        payloads.len() == events.len(),
        forall|i: int| 0 <= i < events.len() ==> #[trigger] retains(events[i], payloads[i]),
    ensures
        message_bytes(events) <= total(payloads),
    decreases events.len(),
{
    if events.len() > 0 {
        let front = events.drop_last();
        let sizes = payloads.drop_last();
        assert forall|i: int| 0 <= i < front.len() implies #[trigger] retains(
            front[i],
            sizes[i],
        ) by {
            assert(retains(events[i], payloads[i]));
        }
        lemma_message_bytes(front, sizes);
        assert(retains(events[events.len() - 1], payloads[events.len() - 1]));
    }
}

/// What a batch retains is never less than what its messages hold, short of the
/// largest number there is: no payload goes past the ceiling uncounted.
pub proof fn law_batch_counts_every_message(events: Seq<JsEvent>, bytes: usize)
    requires
        batch_retains(events, bytes),
    ensures
        bytes >= message_bytes(events) || bytes == usize::MAX,
{
    let slot = vstd::layout::size_of::<JsEvent>() as int;
    let (slots, payloads) = choose|slots: usize, payloads: Seq<usize>|
        {
            &&& slots >= events.len()
            &&& payloads.len() == events.len()
            &&& forall|i: int| 0 <= i < events.len() ==> #[trigger] retains(events[i], payloads[i])
            &&& bytes == #[trigger] cost_of(slots as int, slot, total(payloads))
        };
    lemma_message_bytes(events, payloads);
    vstd::arithmetic::mul::lemma_mul_nonnegative(slots as int, slot);
}

/// A budget is dropped exactly where its connection's close was told and it is no
/// longer live; every other stays as it is.
pub proof fn law_closed_connection_is_forgotten(
    states: Map<u64, ConnectionState>,
    events: Seq<JsEventView>,
    id: u64,
)
    ensures
        ({
            let after = forgotten(states, events);
            let told = exists|i: int|
                0 <= i < events.len() && (#[trigger] events[i] matches JsEventView::Close {
                    id: gone,
                    ..
                } && gone == id);
            &&& after.contains_key(id) <==> states.contains_key(id) && (states[id].live || !told)
            &&& after.contains_key(id) ==> after[id] == states[id]
        }),
{
}

} // verus!
