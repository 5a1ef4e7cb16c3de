//! Tests for rooms: admission, lifecycle, and the synchronization
//! barrier run both in one call and step by step.

use roomsync::room::{room_t, user_t};
use roomsync::sync_record::{event_t, phase_t};
use roomsync::AgError;

fn user(id: u128, name: &str) -> user_t {
    user_t { id, name: name.to_string(), last_sync_id: 0, last_time: 0 }
}

fn room(size: usize) -> room_t {
    room_t::new(
        "v1".to_string(),
        user(1, "A"),
        "123456".to_string(),
        size,
        600_000,
        1_200_000,
        1_000,
    )
    .unwrap()
}

fn ev(id: u128, from: u128, tag: &str, n: i64) -> event_t {
    event_t::new(id, from, tag.to_string(), serde_json::Value::from(n))
}

#[test]
fn user_name_is_validated() {
    assert!(user_t::new("A").is_ok());
    assert!(user_t::new("abcdefghabcdefghabcdefghabcdefgh").is_ok());
    assert!(user_t::new("").is_err());
    assert!(user_t::new("abcdefghabcdefghabcdefghabcdefghX").is_err());
    let err = user_t::new("").unwrap_err();
    assert_eq!(err.http_status(), 400);
}

#[test]
fn room_size_is_validated() {
    let bad1 = room_t::new(
        "v1".to_string(), user(1, "A"), "123456".to_string(), 1, 600_000, 1_200_000, 0,
    );
    let bad5 = room_t::new(
        "v1".to_string(), user(1, "A"), "123456".to_string(), 5, 600_000, 1_200_000, 0,
    );
    assert!(bad1.is_err());
    assert!(bad5.is_err());
    match bad1.unwrap_err() {
        AgError::BadRequestError(m) => {
            assert_eq!(m, "Invalid room size. Must be between 2 and 4.")
        },
        _ => panic!("wrong error kind"),
    }
    assert!(
        room_t::new("v1".to_string(), user(1, "A"), "123456".to_string(), 2, 1, 1, 0).is_ok()
    );
    assert!(
        room_t::new("v1".to_string(), user(1, "A"), "123456".to_string(), 4, 1, 1, 0).is_ok()
    );
}

#[test]
fn room_version_is_validated() {
    let bad = room_t::new(
        "".to_string(), user(1, "A"), "123456".to_string(), 2, 1, 1, 0,
    );
    match bad.unwrap_err() {
        AgError::BadRequestError(m) => {
            assert_eq!(m, "Invalid room version length. Must be between 1 and 32.")
        },
        _ => panic!("wrong error kind"),
    }
}

#[test]
fn join_checks_version_lobby_capacity_and_identity() {
    let mut r = room(2);
    match r.join("v2", user(2, "B"), 2_000).unwrap_err() {
        AgError::BadRequestError(m) => assert_eq!(m, "Invalid room version."),
        _ => panic!("wrong error kind"),
    }
    // duplicate id
    match r.join("v1", user(1, "A2"), 2_000).unwrap_err() {
        AgError::ForbiddenError(m) => assert_eq!(m, "User already in the room."),
        _ => panic!("wrong error kind"),
    }
    assert!(r.join("v1", user(2, "B"), 2_000).is_ok());
    // full
    match r.join("v1", user(3, "C"), 2_000).unwrap_err() {
        AgError::ForbiddenError(m) => assert_eq!(m, "Room is full."),
        _ => panic!("wrong error kind"),
    }
    r.start_game(3_000).unwrap();
    let mut r2 = room(3);
    r2.start_game(3_000).unwrap_err();
}

#[test]
fn join_after_start_is_forbidden() {
    let mut r = room(3);
    assert!(r.join("v1", user(2, "B"), 2_000).is_ok());
    r.start_game(3_000).unwrap();
    match r.join("v1", user(3, "C"), 4_000).unwrap_err() {
        AgError::ForbiddenError(m) => assert_eq!(m, "Game already started."),
        _ => panic!("wrong error kind"),
    }
}

#[test]
fn start_game_needs_two_players_and_runs_once() {
    let mut r = room(2);
    match r.start_game(2_000).unwrap_err() {
        AgError::ForbiddenError(m) => assert_eq!(m, "Not enough players to start the game."),
        _ => panic!("wrong error kind"),
    }
    assert!(r.join("v1", user(2, "B"), 2_000).is_ok());
    assert!(r.start_game(3_000).is_ok());
    assert!(!r.is_in_lobby());
    match r.start_game(3_500).unwrap_err() {
        AgError::ForbiddenError(m) => assert_eq!(m, "Game already started."),
        _ => panic!("wrong error kind"),
    }
}

#[test]
fn only_owner_starts_the_game() {
    let mut r = room(2);
    assert!(r.join("v1", user(2, "B"), 2_000).is_ok());
    let err = r.start_game_as(2, 3_000).unwrap_err();
    assert_eq!(err.http_status(), 403);
    match err {
        AgError::ForbiddenError(m) => assert_eq!(m, "Only owner can start the game."),
        _ => panic!("wrong error kind"),
    }
    assert!(r.start_game_as(1, 3_000).is_ok());
}

#[test]
fn availability_tracks_expiry_and_population() {
    let mut r = room(2);
    // lobby: one member suffices until the expiry passes
    assert!(r.is_available(1_000));
    assert!(r.is_available(601_000));
    assert!(!r.is_available(601_001));
    assert!(r.join("v1", user(2, "B"), 2_000).is_ok());
    r.start_game(10_000).unwrap();
    // in game: expiry restarted, two members needed
    assert!(r.is_available(1_210_000));
    assert!(!r.is_available(1_210_001));
    assert!(r.kick(2));
    assert!(!r.is_available(20_000));
}

#[test]
fn kick_expired_zero_timeout_kicks_stale_members() {
    let mut r = room(4);
    assert!(r.join("v1", user(2, "B"), 2_000).is_ok());
    assert!(r.join("v1", user(3, "C"), 3_000).is_ok());
    // every member's last activity lies before the next tick
    assert_eq!(r.kick_expired(0, 3_001), 3);
    assert_eq!(r.count_users(), 0);
}

#[test]
fn kick_expired_keeps_active_members() {
    let mut r = room(4);
    assert!(r.join("v1", user(2, "B"), 2_000).is_ok());
    assert!(r.join("v1", user(3, "C"), 50_000).is_ok());
    // owner stamped at 1_000, B at 2_000, C at 50_000; timeout 10 s
    assert_eq!(r.kick_expired(10_000, 55_000), 2);
    assert_eq!(r.get_user_ids(), vec![3]);
}

#[test]
fn cooldown_blocks_rapid_fire_sync() {
    let r = room(2);
    // the owner's last activity was stamped at creation time 1_000
    let err = r.check_cooldown(1, 1_050, 100).unwrap_err();
    assert_eq!(err.http_status(), 429);
    match err {
        AgError::TooManyRequestsError(m) => {
            assert_eq!(m, "Wait 100ms before sending another sync request.")
        },
        _ => panic!("wrong error kind"),
    }
    assert!(r.check_cooldown(1, 1_100, 100).is_ok());
    let missing = r.check_cooldown(9, 1_100, 100).unwrap_err();
    assert_eq!(missing.http_status(), 404);
}

#[test]
fn sync_requires_membership() {
    let mut r = room(2);
    let err = r.sync(9, Vec::new(), Vec::new(), 2_000).unwrap_err();
    match err {
        AgError::ForbiddenError(m) => assert_eq!(m, "User not in the room."),
        _ => panic!("wrong error kind"),
    }
}

#[test]
fn two_player_round_shares_events() {
    // Two-player happy path, the barrier driven step by step as the
    // concurrent shell would: both deposit, both mark, both finalize.
    let mut r = room(2);
    assert!(r.join("v1", user(2, "B"), 2_000).is_ok());
    r.start_game(3_000).unwrap();

    let wait_a = r.sync_deposit(1, vec![ev(101, 1, "ping", 1)], vec![ev(201, 1, "move", 1)]);
    assert!(wait_a.is_ok());
    let wait_b = r.sync_deposit(2, vec![ev(102, 2, "ping", 2)], vec![ev(202, 2, "move", 2)]);
    assert!(wait_b.is_ok());
    assert!(r.sync_mark_syncing(1).is_ok());
    assert!(r.sync_mark_syncing(2).is_ok());
    let slice_a = r.sync_finalize(1, 4_000).unwrap();
    let slice_b = r.sync_finalize(2, 4_001).unwrap();

    assert_eq!(slice_a.len(), 1);
    assert_eq!(slice_b.len(), 1);
    assert_eq!(slice_a[0].id, slice_b[0].id);
    // actions of both players are visible to both
    let action_ids: Vec<u128> = slice_a[0].get_actions().iter().map(|e| e.id).collect();
    assert_eq!(action_ids, vec![201, 202]);
    // the record holds both reports; each carries its sender, so the
    // transport can echo each caller only their own
    let own_a: Vec<u128> =
        slice_a[0].get_reports().iter().filter(|e| e.from == 1).map(|e| e.id).collect();
    let own_b: Vec<u128> =
        slice_b[0].get_reports().iter().filter(|e| e.from == 2).map(|e| e.id).collect();
    assert_eq!(own_a, vec![101]);
    assert_eq!(own_b, vec![102]);

    // a third sync returns an empty catch-up with a new round id
    let slice_a2 = r.sync(1, Vec::new(), Vec::new(), 5_000).unwrap();
    assert_eq!(slice_a2.len(), 1);
    assert!(slice_a2[0].id != slice_a[0].id);
    assert_eq!(slice_a2[0].get_reports().len(), 0);
    assert_eq!(slice_a2[0].get_actions().len(), 0);
}

#[test]
fn straggler_catches_up_next_round() {
    // Three players; C never calls. The round closes without C's
    // events, rolls over, and C's eventual sync replays the backlog.
    let mut r = room(3);
    assert!(r.join("v1", user(2, "B"), 2_000).is_ok());
    assert!(r.join("v1", user(3, "C"), 2_100).is_ok());
    r.start_game(3_000).unwrap();

    assert!(r.sync_deposit(1, Vec::new(), vec![ev(201, 1, "move", 1)]).is_ok());
    assert!(r.sync_deposit(2, Vec::new(), vec![ev(202, 2, "move", 2)]).is_ok());
    assert!(r.sync_mark_syncing(1).is_ok());
    assert!(r.sync_mark_syncing(2).is_ok());
    let slice_a = r.sync_finalize(1, 4_000).unwrap();
    let slice_b = r.sync_finalize(2, 4_001).unwrap();
    assert_eq!(slice_a.len(), 1);
    assert_eq!(slice_b.len(), 1);
    let round1 = slice_a[0].id;

    // C catches up: the slice starts with round one and its events
    let slice_c = r.sync(3, Vec::new(), Vec::new(), 5_000).unwrap();
    assert_eq!(slice_c.len(), 2);
    assert_eq!(slice_c[0].id, round1);
    let action_ids: Vec<u128> = slice_c[0].get_actions().iter().map(|e| e.id).collect();
    assert_eq!(action_ids, vec![201, 202]);
}

#[test]
fn second_submission_in_open_round_is_rejected() {
    // B deposits but does not finish, so the round cannot roll over;
    // A's second sync in the same round must be refused.
    let mut r = room(2);
    assert!(r.join("v1", user(2, "B"), 2_000).is_ok());
    r.start_game(3_000).unwrap();
    assert!(r.sync_deposit(2, Vec::new(), Vec::new()).is_ok());
    assert!(r.sync(1, Vec::new(), Vec::new(), 4_000).is_ok());
    let err = r.sync(1, Vec::new(), Vec::new(), 4_200).unwrap_err();
    match err {
        AgError::ForbiddenError(m) => assert_eq!(m, "User already synced."),
        _ => panic!("wrong error kind"),
    }
}

#[test]
fn sync_ids_strictly_increase_for_one_user() {
    let mut r = room(2);
    assert!(r.join("v1", user(2, "B"), 2_000).is_ok());
    r.start_game(3_000).unwrap();
    let mut last: u128 = 0;
    let mut now: u64 = 4_000;
    for _ in 0..5 {
        let slice = r.sync(1, Vec::new(), Vec::new(), now).unwrap();
        let id = slice.last().unwrap().id;
        assert!(id > last);
        last = id;
        now += 1_000;
    }
}

#[test]
fn idle_user_keeps_bookmark_and_gets_backlog() {
    let mut r = room(2);
    assert!(r.join("v1", user(2, "B"), 2_000).is_ok());
    r.start_game(3_000).unwrap();
    let b_before = r.get_user(2).unwrap().last_sync_id;
    let mut now: u64 = 4_000;
    let mut ids = Vec::new();
    for _ in 0..3 {
        let slice = r.sync(1, Vec::new(), vec![], now).unwrap();
        ids.push(slice.last().unwrap().id);
        now += 1_000;
    }
    // B never acted: bookmark untouched
    assert_eq!(r.get_user(2).unwrap().last_sync_id, b_before);
    // B's next sync replays every round since that bookmark
    let slice_b = r.sync(2, Vec::new(), Vec::new(), now).unwrap();
    assert!(slice_b.len() >= 3);
    for id in ids {
        assert!(slice_b.iter().any(|rec| rec.id == id));
    }
}

#[test]
fn phases_never_decrease_across_observations() {
    let mut r = room(2);
    assert!(r.join("v1", user(2, "B"), 2_000).is_ok());
    assert!(r.sync_deposit(1, Vec::new(), Vec::new()).is_ok());
    let n = r.sync_records.len();
    let mut seen = r.sync_records[n - 1].get_phase(1).num();
    assert!(r.sync_mark_syncing(1).is_ok());
    let p = r.sync_records[n - 1].get_phase(1).num();
    assert!(p >= seen);
    seen = p;
    assert!(r.sync_finalize(1, 3_000).is_ok());
    let p = r.sync_records[n - 1].get_phase(1).num();
    assert!(p >= seen);
    assert_eq!(p, phase_t::SYNCED.num());
}

#[test]
fn clean_sync_records_drops_consumed_rounds_but_keeps_open_one() {
    let mut r = room(2);
    assert!(r.join("v1", user(2, "B"), 2_000).is_ok());
    r.start_game(3_000).unwrap();
    // a full round: both sync, the round rolls over
    assert!(r.sync_deposit(1, Vec::new(), Vec::new()).is_ok());
    assert!(r.sync_deposit(2, Vec::new(), Vec::new()).is_ok());
    assert!(r.sync_mark_syncing(1).is_ok());
    assert!(r.sync_mark_syncing(2).is_ok());
    assert!(r.sync_finalize(1, 4_000).is_ok());
    assert!(r.sync_finalize(2, 4_001).is_ok());
    assert_eq!(r.sync_records.len(), 2);
    // the consumed round goes; the open one stays
    assert_eq!(r.clean_sync_records(), 1);
    assert_eq!(r.sync_records.len(), 1);
    assert_eq!(r.clean_sync_records(), 0);
    assert_eq!(r.sync_records.len(), 1);
}

#[test]
fn update_info_round_trips() {
    let mut r = room(2);
    let mut obj = serde_json::Map::new();
    obj.insert("stage".to_string(), serde_json::Value::from(3i64));
    let val = serde_json::Value::Object(obj);
    r.update_info(val.clone());
    assert_eq!(r.get_info(), val);
}

#[test]
fn get_owner_is_first_member() {
    let mut r = room(3);
    assert!(r.join("v1", user(2, "B"), 2_000).is_ok());
    assert_eq!(r.get_owner().unwrap().id, 1);
    assert!(r.kick(1));
    assert_eq!(r.get_owner().unwrap().id, 2);
    assert!(r.kick(2));
    assert!(r.get_owner().is_err());
}

#[test]
fn user_setters_validate_and_update() {
    let mut u = user(1, "A");
    assert!(u.set_name("Bernadette").is_ok());
    assert_eq!(u.get_name(), "Bernadette");
    assert!(u.set_name("").is_err());
    assert_eq!(u.get_name(), "Bernadette");
    u.update_last(77, 9_000);
    assert_eq!(u.get_last_sync_id(), 77);
    assert_eq!(u.get_last_time(), 9_000);
}
