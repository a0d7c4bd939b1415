use ramjet_node::bridge::{ConnectionState, MAX_OUTBOUND};
use ramjet_node::budget::{DispatchBudget, MAX_DISPATCH_BYTES};
use ramjet_node::dispatch::{batch_bytes, batch_cost};
use ramjet_node::messages::JsEvent;

#[test]
fn one_oversized_dispatch_batch_can_make_progress() {
    let mut budget = DispatchBudget::default();
    let oversized = MAX_DISPATCH_BYTES + 1;
    assert!(budget.reserve(oversized));
    assert_eq!(budget.pending, oversized);
    budget.release(oversized);
}

#[test]
fn dispatch_budget_applies_pressure_and_wakes_without_a_lost_signal() {
    let mut budget = DispatchBudget::default();
    assert!(budget.reserve(MAX_DISPATCH_BYTES));
    assert!(!budget.waiting);

    // The second batch has to wait, and says so.
    assert!(!budget.reserve(1));
    assert!(budget.waiting);
    assert_eq!(budget.pending, MAX_DISPATCH_BYTES);

    // Giving the first back tells that someone is to be woken.
    assert!(budget.release(MAX_DISPATCH_BYTES));
    assert!(budget.retry(1));
    assert!(!budget.waiting);
    assert!(!budget.release(1));
    assert_eq!(budget.pending, 0);
}

#[test]
fn the_ceiling_holds_to_the_byte() {
    let mut budget = DispatchBudget::default();
    assert!(budget.try_reserve(MAX_DISPATCH_BYTES - 1));
    assert!(budget.try_reserve(1));
    assert_eq!(budget.pending, 32 * 1024 * 1024);
    assert!(!budget.try_reserve(1));
    assert!(!budget.waiting);
    // A waiter that wakes too early goes on waiting.
    assert!(!budget.reserve(10));
    assert!(budget.release(5));
    assert!(!budget.retry(10));
    assert!(budget.waiting);
    assert!(budget.release(5));
    assert!(budget.retry(10));
    assert_eq!(budget.pending, MAX_DISPATCH_BYTES);
}

#[test]
fn a_connection_is_charged_up_to_its_cap() {
    let mut state = ConnectionState::new();
    assert_eq!(state, ConnectionState { pending: 0, live: true });
    assert!(state.reserve(MAX_OUTBOUND));
    assert_eq!(state.pending, 4 * 1024 * 1024);
    assert!(!state.reserve(1));
    assert!(state.reserve(0));
    assert!(!state.reserve(usize::MAX));
    state.release(10);
    assert!(state.reserve(10));
    state.release(usize::MAX);
    assert_eq!(state.pending, 0);
    state.close();
    assert!(!state.reserve(0));
    assert_eq!(state, ConnectionState { pending: 0, live: false });
}

#[test]
fn a_batch_costs_its_slots_and_its_payloads() {
    assert_eq!(batch_cost(3, 40, &vec![10, 20]), 150);
    assert_eq!(batch_cost(0, 40, &vec![]), 0);
    assert_eq!(batch_cost(usize::MAX, 2, &vec![1]), usize::MAX);
    assert_eq!(batch_cost(1, usize::MAX - 5, &vec![3, 3, 3]), usize::MAX);
}

#[test]
fn a_batch_retains_the_room_its_vectors_have() {
    let mut data: Vec<u8> = Vec::with_capacity(1000);
    data.push(1);
    let room = data.capacity();
    let mut events: Vec<JsEvent> = Vec::with_capacity(8);
    events.push(JsEvent::Open { id: 1 });
    events.push(JsEvent::Message { id: 1, data, binary: true });
    events.push(JsEvent::Close { id: 1, code: 1000 });
    let slots = events.capacity();
    assert_eq!(batch_bytes(&events), slots * std::mem::size_of::<JsEvent>() + room);
    assert!(batch_bytes(&events) >= 1000 + 8 * std::mem::size_of::<JsEvent>());
}

#[test]
fn no_release_is_missed_by_a_waiter() {
    let mut budget = DispatchBudget::default();
    let batches = [MAX_DISPATCH_BYTES - 30, 10, 15, 5];
    for bytes in batches {
        assert!(budget.reserve(bytes));
    }
    let large = MAX_DISPATCH_BYTES + 7;
    assert!(!budget.reserve(large));
    for bytes in [10, 5, MAX_DISPATCH_BYTES - 30] {
        assert!(budget.release(bytes));
        assert!(!budget.retry(large));
        assert!(budget.waiting);
    }
    assert!(budget.release(15));
    assert!(budget.retry(large));
    assert_eq!(budget.pending, large);
    assert!(!budget.waiting);
}

#[test]
fn pending_is_what_is_held_and_over_the_ceiling_only_for_one() {
    let mut budget = DispatchBudget::default();
    let mut held: Vec<usize> = Vec::new();
    let large = MAX_DISPATCH_BYTES + 1;
    for bytes in [0, large, 0, 1, MAX_DISPATCH_BYTES] {
        if budget.reserve(bytes) {
            held.push(bytes);
        }
        assert_eq!(budget.pending, held.iter().sum::<usize>());
    }
    assert_eq!(held, [0, large]);
    budget.release(held.remove(1));
    assert_eq!(budget.pending, 0);
    for bytes in [MAX_DISPATCH_BYTES - 1, 1, 1] {
        if budget.retry(bytes) {
            held.push(bytes);
        }
        assert_eq!(budget.pending, held.iter().sum::<usize>());
    }
    assert_eq!(held, [0, MAX_DISPATCH_BYTES - 1, 1]);
}
