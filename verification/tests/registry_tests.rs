//! Tests for the room and session registries: creation, lookup,
//! capacity, name generation, and the janitor's sweep.

use roomsync::numbers::{format_name, parse_name, stoul};
use roomsync::room::{room_t, user_t};
use roomsync::room_list::room_list_t;
use roomsync::session::session_list_t;
use roomsync::sync_record::sync_record_t;
use roomsync::AgError;

fn user(id: u128, name: &str) -> user_t {
    user_t { id, name: name.to_string(), last_sync_id: 0, last_time: 0 }
}

#[test]
fn create_inserts_into_both_indexes() {
    let mut reg = room_list_t::new(100, 600_000, 1_200_000);
    let (id, name) = reg.create("v1", user(1, "A"), 2, 1_000).unwrap();
    assert_eq!(name.len(), 6);
    assert!(name.bytes().all(|b| b.is_ascii_digit()));
    assert_eq!(reg.count(), 1);
    // round-trip through both indexes
    assert_eq!(reg.get(&name).unwrap().id, id);
    assert_eq!(reg.get_by_id(id).unwrap().name, name);
    assert!(reg.exists_name(&name));
    assert!(reg.exists_by_id(id));
}

#[test]
fn create_then_join_by_name_reaches_same_room() {
    let mut reg = room_list_t::new(100, 600_000, 1_200_000);
    let (id, name) = reg.create("v1", user(1, "A"), 2, 1_000).unwrap();
    let at = (0..reg.rooms.len()).find(|&i| reg.rooms[i].id == id).unwrap();
    assert_eq!(reg.rooms[at].name, name);
    assert!(reg.rooms[at].join("v1", user(2, "B"), 2_000).is_ok());
    assert_eq!(reg.get(&name).unwrap().id, id);
    assert_eq!(reg.get(&name).unwrap().count_users(), 2);
}

#[test]
fn create_respects_room_limit() {
    let mut reg = room_list_t::new(2, 600_000, 1_200_000);
    assert!(reg.create("v1", user(1, "A"), 2, 1_000).is_ok());
    assert!(reg.create("v1", user(2, "B"), 2, 1_000).is_ok());
    let err = reg.create("v1", user(3, "C"), 2, 1_000).unwrap_err();
    match err {
        AgError::ForbiddenError(m) => assert_eq!(m, "Room limit reached."),
        _ => panic!("wrong error kind"),
    }
    assert!(reg.count() <= reg.get_limit());
}

#[test]
fn create_validates_size_through_registry() {
    let mut reg = room_list_t::new(100, 600_000, 1_200_000);
    assert!(reg.create("v1", user(1, "A"), 1, 1_000).is_err());
    assert!(reg.create("v1", user(1, "A"), 5, 1_000).is_err());
    assert_eq!(reg.count(), 0);
}

#[test]
fn lookup_misses_are_not_found() {
    let reg = room_list_t::new(100, 600_000, 1_200_000);
    let err = reg.get("000000").unwrap_err();
    assert_eq!(err.http_status(), 404);
    match err {
        AgError::NotFoundError(m) => assert_eq!(m, "Room not found."),
        _ => panic!("wrong error kind"),
    }
    assert!(reg.get_by_id(42).is_err());
    assert!(!reg.exists_name("000000"));
    assert!(!reg.exists_by_id(42));
}

#[test]
fn remove_drops_both_indexes() {
    let mut reg = room_list_t::new(100, 600_000, 1_200_000);
    let (id, name) = reg.create("v1", user(1, "A"), 2, 1_000).unwrap();
    assert!(reg.remove(id));
    assert!(!reg.remove(id));
    assert!(reg.get(&name).is_err());
    assert!(reg.get_by_id(id).is_err());
    assert_eq!(reg.count(), 0);
}

#[test]
fn name_generation_survives_ten_thousand_taken_names() {
    // pre-populate the name index with ten thousand taken names
    let mut reg = room_list_t::new(20_000, 600_000, 1_200_000);
    for n in 0..10_000u64 {
        reg.rooms.push(room_t {
            id: (n as u128) + 10,
            version: "v1".to_string(),
            name: format_name(n),
            size: 2,
            lobby_lifetime: 600_000,
            game_lifetime: 1_200_000,
            expire_time: 600_000,
            users: vec![user(n as u128 + 1, "X")],
            in_lobby: true,
            info: serde_json::Value::Null,
            sync_records: vec![sync_record_t::with_id(1)],
        });
    }
    let (_, name) = reg.create("v1", user(99_999, "A"), 2, 1_000).unwrap();
    let taken = parse_name(&name).unwrap();
    // never a duplicate: the fresh name parses above the taken range
    assert!(taken >= 10_000);
    assert_eq!(reg.count(), 10_001);
}

#[test]
fn set_limit_changes_capacity() {
    let mut reg = room_list_t::new(1, 600_000, 1_200_000);
    assert!(reg.create("v1", user(1, "A"), 2, 1_000).is_ok());
    assert!(reg.create("v1", user(2, "B"), 2, 1_000).is_err());
    reg.set_limit(2);
    assert_eq!(reg.get_limit(), 2);
    assert!(reg.create("v1", user(2, "B"), 2, 1_000).is_ok());
}

#[test]
fn janitor_removes_expired_rooms_and_sessions() {
    let mut reg = room_list_t::new(100, 600_000, 1_200_000);
    let mut sessions = session_list_t::new();
    let (id, name) = reg.create("v1", user(1, "A"), 2, 1_000).unwrap();
    let session = sessions.create(id, 1);
    // before expiry nothing happens; members are kept active enough
    reg.clean(1_000_000, 2_000);
    assert!(reg.exists_by_id(id));
    // past the lobby lifetime the room goes
    reg.clean(1_000_000, 602_000);
    assert!(!reg.exists_by_id(id));
    let err = reg.get(&name).unwrap_err();
    assert_eq!(err.http_status(), 404);
    // and the orphaned session follows on the next pass
    assert_eq!(sessions.clean(&reg), 1);
    let err = sessions.get(session.id).unwrap_err();
    assert_eq!(err.http_status(), 401);
    match err {
        AgError::UnauthorizedError(m) => assert_eq!(m, "Session not found."),
        _ => panic!("wrong error kind"),
    }
}

#[test]
fn janitor_kicks_stale_members_of_kept_rooms() {
    let mut reg = room_list_t::new(100, 600_000, 1_200_000);
    let (id, _) = reg.create("v1", user(1, "A"), 3, 1_000).unwrap();
    let at = (0..reg.rooms.len()).find(|&i| reg.rooms[i].id == id).unwrap();
    assert!(reg.rooms[at].join("v1", user(2, "B"), 50_000).is_ok());
    // A idle since 1_000, B active at 50_000, timeout 10 s
    reg.clean(10_000, 55_000);
    let room = reg.get_by_id(id).unwrap();
    assert_eq!(room.get_user_ids(), vec![2]);
}

#[test]
fn sessions_round_trip_and_remove() {
    let mut sessions = session_list_t::new();
    let s = sessions.create(7, 8);
    assert!(s.id != 0);
    assert_eq!(s.room_id, 7);
    assert_eq!(s.user_id, 8);
    let got = sessions.get(s.id).unwrap();
    assert_eq!(got.room_id, 7);
    assert_eq!(got.user_id, 8);
    assert!(sessions.exists_session(s.id));
    assert!(sessions.remove(s.id));
    assert!(!sessions.remove(s.id));
    assert!(!sessions.exists_session(s.id));
}

#[test]
fn session_ids_are_distinct() {
    let mut sessions = session_list_t::new();
    let a = sessions.create(1, 1);
    let b = sessions.create(1, 2);
    let c = sessions.create(2, 1);
    assert!(a.id != b.id && b.id != c.id && a.id != c.id);
}

#[test]
fn session_clean_keeps_live_sessions() {
    let mut reg = room_list_t::new(100, 600_000, 1_200_000);
    let mut sessions = session_list_t::new();
    let (id, _) = reg.create("v1", user(1, "A"), 2, 1_000).unwrap();
    let live = sessions.create(id, 1);
    let dead_room = sessions.create(id + 1, 1);
    let dead_user = sessions.create(id, 9);
    assert_eq!(sessions.clean(&reg), 2);
    assert!(sessions.get(live.id).is_ok());
    assert!(sessions.get(dead_room.id).is_err());
    assert!(sessions.get(dead_user.id).is_err());
}

#[test]
fn stoul_parses_decimal_strings() {
    assert_eq!(stoul("0".to_string()), 0);
    assert_eq!(stoul("42".to_string()), 42);
    assert_eq!(stoul("123456789".to_string()), 123_456_789);
    assert_eq!(stoul("18446744073709551615".to_string()), u64::MAX);
}

#[test]
fn names_format_and_parse_as_inverses() {
    assert_eq!(format_name(0), "000000");
    assert_eq!(format_name(31_416), "031416");
    assert_eq!(format_name(999_999), "999999");
    assert_eq!(parse_name("031416"), Some(31_416));
    assert_eq!(parse_name("000000"), Some(0));
    assert_eq!(parse_name("99999"), None);
    assert_eq!(parse_name("1234567"), None);
    assert_eq!(parse_name("12345a"), None);
    for n in [0u64, 1, 9, 10, 99_999, 100_000, 999_999] {
        assert_eq!(parse_name(&format_name(n)), Some(n));
    }
}
