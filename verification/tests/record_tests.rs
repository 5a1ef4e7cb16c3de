//! Tests for sync records: phases, event merging, and validation.

use roomsync::sync_record::{event_t, phase_t, sync_record_t};
use roomsync::AgError;

fn ev(id: u128, from: u128, tag: &str, n: i64) -> event_t {
    event_t::new(id, from, tag.to_string(), serde_json::Value::from(n))
}

#[test]
fn phase_order_matches_ranks() {
    assert!(phase_t::CREATED.num() < phase_t::WAITING.num());
    assert!(phase_t::WAITING.num() < phase_t::SYNCING.num());
    assert!(phase_t::SYNCING.num() < phase_t::SYNCED.num());
}

#[test]
fn get_phase_observes_at_created() {
    let mut r = sync_record_t::with_id(7);
    assert_eq!(r.get_phase(42), phase_t::CREATED);
    assert_eq!(r.users_phase.len(), 1);
    assert_eq!(r.get_phase(42), phase_t::CREATED);
    assert_eq!(r.users_phase.len(), 1);
}

#[test]
fn max_phase_of_empty_record_is_created() {
    let r = sync_record_t::with_id(7);
    assert_eq!(r.get_max_phase(), phase_t::CREATED);
}

#[test]
fn advance_phase_is_monotone() {
    let mut r = sync_record_t::with_id(7);
    assert!(r.advance_phase(1, phase_t::SYNCING));
    assert_eq!(r.peek_phase(1), phase_t::SYNCING);
    // a lower phase does not stick
    assert!(!r.advance_phase(1, phase_t::WAITING));
    assert_eq!(r.peek_phase(1), phase_t::SYNCING);
    // equal does not count as an advance
    assert!(!r.advance_phase(1, phase_t::SYNCING));
    assert!(r.advance_phase(1, phase_t::SYNCED));
    assert_eq!(r.peek_phase(1), phase_t::SYNCED);
    assert_eq!(r.get_max_phase(), phase_t::SYNCED);
}

#[test]
fn add_events_moves_user_to_waiting() {
    let mut r = sync_record_t::with_id(7);
    let reports = vec![ev(10, 1, "ping", 1)];
    let actions = vec![ev(11, 1, "move", 2)];
    assert!(r.add_events(1, reports, actions).is_ok());
    assert_eq!(r.peek_phase(1), phase_t::WAITING);
    assert_eq!(r.get_reports().len(), 1);
    assert_eq!(r.get_actions().len(), 1);
    assert_eq!(r.get_reports()[0].id, 10);
    assert_eq!(r.get_actions()[0].id, 11);
}

#[test]
fn add_events_keeps_reports_and_actions_apart() {
    let mut r = sync_record_t::with_id(7);
    assert!(r.add_events(1, vec![ev(10, 1, "ping", 1)], vec![ev(11, 1, "move", 2)]).is_ok());
    assert!(r.get_reports().iter().all(|e| e.id == 10));
    assert!(r.get_actions().iter().all(|e| e.id == 11));
}

#[test]
fn add_events_repeated_id_replaces() {
    let mut r = sync_record_t::with_id(7);
    let reports = vec![ev(10, 1, "ping", 1), ev(10, 1, "ping", 2)];
    assert!(r.add_events(1, reports, Vec::new()).is_ok());
    assert_eq!(r.get_reports().len(), 1);
    assert_eq!(r.get_reports()[0].data, serde_json::Value::from(2i64));
}

#[test]
fn add_events_rejects_second_submission() {
    let mut r = sync_record_t::with_id(7);
    assert!(r.add_events(1, Vec::new(), Vec::new()).is_ok());
    let err = r.add_events(1, Vec::new(), Vec::new()).unwrap_err();
    match err {
        AgError::BadRequestError(m) => assert_eq!(m, "Record already synced."),
        _ => panic!("wrong error kind"),
    }
}

#[test]
fn add_events_rejects_foreign_report() {
    let mut r = sync_record_t::with_id(7);
    let err = r.add_events(1, vec![ev(10, 2, "ping", 1)], Vec::new()).unwrap_err();
    match err {
        AgError::BadRequestError(m) => assert_eq!(m, "Invalid report from."),
        _ => panic!("wrong error kind"),
    }
    // the rejected call left nothing behind
    assert_eq!(r.get_reports().len(), 0);
    assert_eq!(r.peek_phase(1), phase_t::CREATED);
}

#[test]
fn add_events_rejects_foreign_action() {
    let mut r = sync_record_t::with_id(7);
    let err = r.add_events(1, Vec::new(), vec![ev(10, 2, "move", 1)]).unwrap_err();
    match err {
        AgError::BadRequestError(m) => assert_eq!(m, "Invalid action from."),
        _ => panic!("wrong error kind"),
    }
}

#[test]
fn deposits_of_two_users_accumulate() {
    let mut r = sync_record_t::with_id(7);
    assert!(r.add_events(1, vec![ev(10, 1, "ping", 1)], vec![ev(11, 1, "move", 1)]).is_ok());
    assert!(r.add_events(2, vec![ev(20, 2, "ping", 2)], vec![ev(21, 2, "move", 2)]).is_ok());
    let report_ids: Vec<u128> = r.get_reports().iter().map(|e| e.id).collect();
    let action_ids: Vec<u128> = r.get_actions().iter().map(|e| e.id).collect();
    assert_eq!(report_ids, vec![10, 20]);
    assert_eq!(action_ids, vec![11, 21]);
}

#[test]
fn later_deposit_with_same_id_wins() {
    let mut r = sync_record_t::with_id(7);
    assert!(r.add_events(1, Vec::new(), vec![ev(30, 1, "move", 1)]).is_ok());
    assert!(r.add_events(2, Vec::new(), vec![ev(30, 2, "move", 9)]).is_ok());
    assert_eq!(r.get_actions().len(), 1);
    assert_eq!(r.get_actions()[0].from, 2);
    assert_eq!(r.get_actions()[0].data, serde_json::Value::from(9i64));
}

#[test]
fn fresh_record_ids_are_nonzero() {
    let r = sync_record_t::new();
    assert!(r.id != 0);
}

#[test]
fn event_clone_keeps_payload() {
    let e = ev(10, 1, "ping", 5);
    let c = e.clone();
    assert_eq!(c.id, 10);
    assert_eq!(c.from, 1);
    assert_eq!(c.type_, "ping");
    assert_eq!(c.data, serde_json::Value::from(5i64));
}
