use panache::settle::{SettleState, WakeAction, HARVEST_CYCLE_TIMEOUT_MS};

const DEBOUNCE: u64 = 250;

#[test]
fn fresh_schedule_has_nothing_armed() {
    let s = SettleState::new();
    assert_eq!(s.settle_deadline(), None);
    assert!(!s.settle_in_flight());
    assert_eq!(s.harvest_expiry(), None);
}

#[test]
fn arming_pushes_the_deadline_out() {
    let mut s = SettleState::new();
    s.arm_settle(1000, DEBOUNCE);
    assert_eq!(s.settle_deadline(), Some(1250));
    s.arm_settle(1100, DEBOUNCE);
    assert_eq!(s.settle_deadline(), Some(1350));
}

#[test]
fn due_settle_is_taken_once() {
    let mut s = SettleState::new();
    s.arm_settle(0, DEBOUNCE);
    assert!(!s.take_due_settle(249));
    assert_eq!(s.settle_deadline(), Some(250));
    assert!(s.take_due_settle(250));
    assert_eq!(s.settle_deadline(), None);
    assert!(!s.take_due_settle(10_000));
}

#[test]
fn expedite_and_defer_only_move_an_armed_deadline() {
    let mut s = SettleState::new();
    s.expedite_settle(5);
    assert_eq!(s.settle_deadline(), None);
    s.defer_settle_until(99);
    assert_eq!(s.settle_deadline(), None);
    s.arm_settle(100, DEBOUNCE);
    s.expedite_settle(120);
    assert_eq!(s.settle_deadline(), Some(120));
    s.defer_settle_until(900);
    assert_eq!(s.settle_deadline(), Some(900));
}

#[test]
fn complete_settle_bumps_generation_and_hands_out_externals() {
    let mut s = SettleState::new();
    s.arm_settle_external(7, 0, DEBOUNCE);
    s.arm_settle_external(3, 10, DEBOUNCE);
    s.arm_settle_external(7, 20, DEBOUNCE);
    assert_eq!(s.settle_deadline(), Some(270));
    let (generation, external) = s.complete_settle();
    assert_eq!(generation, 1);
    assert_eq!(external, vec![7, 3]);
    assert_eq!(s.settle_deadline(), None);
    assert!(s.settle_in_flight());
}

#[test]
fn current_result_lands_and_retires_exactly_what_it_ran() {
    let mut s = SettleState::new();
    s.arm_settle_external(1, 0, DEBOUNCE);
    let (generation, external) = s.complete_settle();
    // A save queued after dispatch.
    s.arm_settle_external(2, 5, DEBOUNCE);
    assert!(s.apply_settle_result(generation, &external));
    assert!(!s.settle_in_flight());
    let (_, next) = s.complete_settle();
    assert_eq!(next, vec![2]);
}

#[test]
fn superseded_result_is_dropped() {
    let mut s = SettleState::new();
    s.arm_settle_external(1, 0, DEBOUNCE);
    let (first, ran) = s.complete_settle();
    let (second, _) = s.complete_settle();
    assert_eq!(second, first + 1);
    assert!(!s.apply_settle_result(first, &ran));
    assert!(s.settle_in_flight());
    // Nothing was retired: the externals are still handed to the next pass.
    let (_, external) = s.complete_settle();
    assert_eq!(external, vec![1]);
}

#[test]
fn cycle_ids_are_fresh_and_completion_ends_the_cycle() {
    let mut s = SettleState::new();
    let a = s.begin_harvest_cycle(0);
    let b = s.begin_harvest_cycle(5);
    assert_eq!((a, b), (1, 2));
    assert_eq!(s.harvest_expiry(), Some(5 + HARVEST_CYCLE_TIMEOUT_MS));
    s.complete_settle();
    assert_eq!(s.harvest_expiry(), None);
    s.end_harvest_cycle();
    assert_eq!(s.harvest_expiry(), None);
}

#[test]
fn harvest_round_skips_open_uncached_and_already_requested() {
    let mut s = SettleState::new();
    assert!(s.harvest_round(&vec![10], &vec![Some(1)], &vec![]).is_empty());
    s.begin_harvest_cycle(0);
    let referenced = vec![10, 11, 12, 13];
    let handles = vec![Some(100), Some(101), None, Some(103)];
    let open = vec![11];
    let round = s.harvest_round(&referenced, &handles, &open);
    assert_eq!(round, vec![10, 13]);
    // The same inputs again: nothing new to read.
    assert!(s.harvest_round(&referenced, &handles, &open).is_empty());
    // A replaced input (new handle) is requested again.
    let handles = vec![Some(200), Some(101), None, Some(103)];
    assert_eq!(s.harvest_round(&referenced, &handles, &open), vec![10]);
}

#[test]
fn applied_batch_resets_harvest_expiry() {
    let mut s = SettleState::new();
    let id = s.begin_harvest_cycle(20);
    assert_eq!(s.harvest_expiry(), Some(20 + HARVEST_CYCLE_TIMEOUT_MS));
    let kept = s.apply_harvest(id, 500, &vec![], &vec![], &vec![], &vec![]);
    assert_eq!(kept, Some(vec![]));
    assert_eq!(s.harvest_expiry(), Some(500 + HARVEST_CYCLE_TIMEOUT_MS));
}

#[test]
fn batch_keeps_only_fresh_readable_unshielded_closed_entries() {
    let mut s = SettleState::new();
    let id = s.begin_harvest_cycle(0);
    let round = s.harvest_round(&vec![1, 2, 3, 4, 5], &vec![Some(11), Some(12), Some(13), Some(14), Some(15)], &vec![]);
    assert_eq!(round, vec![1, 2, 3, 4, 5]);
    s.shield_from_harvest(3);
    let paths = vec![1, 2, 3, 4, 5, 6];
    // 2 was evicted and re-interned (new handle); 6 was never requested.
    let handles = vec![Some(11), Some(99), Some(13), Some(14), Some(15), Some(16)];
    let readable = vec![true, true, true, false, true, true];
    let open = vec![5];
    let kept = s.apply_harvest(id, 10, &paths, &handles, &readable, &open);
    assert_eq!(kept, Some(vec![0]));
}

#[test]
fn stale_cycle_batch_is_rejected() {
    let mut s = SettleState::new();
    let old = s.begin_harvest_cycle(0);
    s.harvest_round(&vec![1], &vec![Some(11)], &vec![]);
    let new = s.begin_harvest_cycle(100);
    assert_ne!(old, new);
    assert_eq!(s.apply_harvest(old, 200, &vec![1], &vec![Some(11)], &vec![true], &vec![]), None);
    // The rejected batch made no progress on the current cycle.
    assert_eq!(s.harvest_expiry(), Some(100 + HARVEST_CYCLE_TIMEOUT_MS));
    s.end_harvest_cycle();
    assert_eq!(s.apply_harvest(new, 300, &vec![], &vec![], &vec![], &vec![]), None);
}

#[test]
fn wakeup_waits_for_the_earlier_of_deadline_and_expiry() {
    let mut s = SettleState::new();
    assert_eq!(s.next_wakeup(), None);
    s.arm_settle(0, DEBOUNCE);
    assert_eq!(s.next_wakeup(), Some(250));
    s.begin_harvest_cycle(0);
    assert_eq!(s.next_wakeup(), Some(250));
    s.arm_settle(40_000, DEBOUNCE);
    assert_eq!(s.next_wakeup(), Some(HARVEST_CYCLE_TIMEOUT_MS));
}

#[test]
fn due_deadline_begins_a_cycle() {
    let mut s = SettleState::new();
    assert_eq!(s.on_wakeup(10), WakeAction::Wait);
    s.arm_settle(0, DEBOUNCE);
    assert_eq!(s.on_wakeup(100), WakeAction::Wait);
    assert_eq!(s.settle_deadline(), Some(250));
    assert_eq!(s.on_wakeup(250), WakeAction::BeginCycle(1));
    assert_eq!(s.settle_deadline(), None);
    assert_eq!(s.harvest_expiry(), Some(250 + HARVEST_CYCLE_TIMEOUT_MS));
}

#[test]
fn deadline_mid_cycle_is_deferred_to_the_expiry() {
    let mut s = SettleState::new();
    s.begin_harvest_cycle(0);
    s.arm_settle(10, DEBOUNCE);
    assert_eq!(s.on_wakeup(260), WakeAction::Wait);
    assert_eq!(s.settle_deadline(), Some(HARVEST_CYCLE_TIMEOUT_MS));
    assert!(s.harvest_expiry().is_some());
}

#[test]
fn lost_harvest_batch_recovers_via_cycle_timeout() {
    let mut s = SettleState::new();
    let id = s.begin_harvest_cycle(0);
    assert_eq!(s.on_wakeup(HARVEST_CYCLE_TIMEOUT_MS), WakeAction::SettleSynchronously);
    assert_eq!(s.harvest_expiry(), None);
    // The late batch of the aborted cycle is rejected.
    assert_eq!(s.apply_harvest(id, HARVEST_CYCLE_TIMEOUT_MS + 1, &vec![], &vec![], &vec![], &vec![]), None);
}
