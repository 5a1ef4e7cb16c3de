//! Room membership and the synchronization barrier: users, the ordered
//! log of sync records, admission rules, lifecycle, and the staged sync
//! operation whose waits are driven by the caller.

use vstd::prelude::*;
use crate::AgError;
use crate::{is_bad_request, is_forbidden, is_not_found, is_too_many_requests};
use crate::numbers::str_eq;
use crate::outside::{default_value, fresh_id};
use crate::sync_record::{
    all_from, merge_events, phase_max, phase_t, sync_record_t, unique_users,
};
use crate::sync_record::event_t;

verus! {

/// Membership entry in a room: identity, display name, the id of the
/// most recent record the user has acknowledged, and the monotonic
/// millisecond timestamp of the user's last activity.
#[derive(Debug)]
pub struct user_t {
    pub id: u128,
    pub name: String,
    pub last_sync_id: u128,
    pub last_time: u64,
}

/// A valid display name has one to thirty-two characters.
pub open spec fn valid_name(s: Seq<char>) -> bool {
    1 <= s.len() <= 32
}

impl user_t {
    /// Structural invariant of a user.
    pub open spec fn wf(self) -> bool {
        valid_name(self.name@)
    }

    /// A fresh user with a validated display name, a freshly generated
    /// id, the nil acknowledgement bookmark, and a zero activity stamp.
    pub fn new(name: &str) -> (r: Result<Self, AgError>)
        ensures
            match r {
                Ok(u) => {
                    &&& valid_name(name@)
                    &&& u.wf()
                    &&& u.name@ == name@
                    &&& u.last_sync_id == 0
                    &&& u.last_time == 0
                    &&& 0 < u.id < u128::MAX
                },
                Err(e) => {
                    &&& !valid_name(name@)
                    &&& is_bad_request(
                        e,
                        "Invalid user name length. Must be between 1 and 32."@,
                    )
                },
            },
    {
        let mut this = user_t {
            id: fresh_id(),
            name: String::new(),
            last_sync_id: 0,
            last_time: 0,
        };
        match this.set_name(name) {
            Ok(_) => Ok(this),
            Err(e) => Err(e),
        }
    }

    /// The display name.
    pub fn get_name(&self) -> (r: String)
        ensures
            r == self.name,
    {
        self.name.clone()
    }

    /// Replace the display name; rejects an invalid length.
    pub fn set_name(&mut self, new_name: &str) -> (r: Result<(), AgError>)
        ensures
            final(self).id == old(self).id,
            final(self).last_sync_id == old(self).last_sync_id,
            final(self).last_time == old(self).last_time,
            match r {
                Ok(_) => valid_name(new_name@) && final(self).name@ == new_name@,
                Err(e) => {
                    &&& !valid_name(new_name@)
                    &&& final(self).name == old(self).name
                    &&& is_bad_request(
                        e,
                        "Invalid user name length. Must be between 1 and 32."@,
                    )
                },
            },
    {
        let len = new_name.unicode_len();
        if len == 0 || len > 32 {
            return Err(
                AgError::bad_request_error("Invalid user name length. Must be between 1 and 32."),
            );
        }
        self.name = new_name.to_owned();
        Ok(())
    }

    /// The id of the most recent acknowledged record.
    pub fn get_last_sync_id(&self) -> (r: u128)
        ensures
            r == self.last_sync_id,
    {
        self.last_sync_id
    }

    /// The monotonic stamp of the last activity.
    pub fn get_last_time(&self) -> (r: u64)
        ensures
            r == self.last_time,
    {
        self.last_time
    }

    /// Move the acknowledgement bookmark and stamp the activity time.
    pub fn update_last(&mut self, new_sync_id: u128, now: u64)
        ensures
            final(self).id == old(self).id,
            final(self).name == old(self).name,
            final(self).last_sync_id == new_sync_id,
            final(self).last_time == now,
    {
        self.last_sync_id = new_sync_id;
        self.last_time = now;
    }
}

impl Clone for user_t {
    fn clone(&self) -> (r: Self)
        ensures
            r == *self,
    {
        user_t {
            id: self.id,
            name: self.name.clone(),
            last_sync_id: self.last_sync_id,
            last_time: self.last_time,
        }
    }
}

/// User ids are pairwise distinct.
pub open spec fn unique_user_ids(s: Seq<user_t>) -> bool {
    forall|i: int, j: int|
        0 <= i < j < s.len() ==> (#[trigger] s[i]).id != (#[trigger] s[j]).id
}

/// `s` holds a user with this id.
pub open spec fn has_user_id(s: Seq<user_t>, u: u128) -> bool {
    exists|i: int| 0 <= i < s.len() && s[i].id == u
}

/// The index of the user with this id.
pub open spec fn user_index(s: Seq<user_t>, u: u128) -> int {
    choose|i: int| 0 <= i < s.len() && s[i].id == u
}

/// With distinct ids, the chosen index is the only index of its id.
pub proof fn lemma_user_index(s: Seq<user_t>, u: u128)
    requires
        unique_user_ids(s),
        has_user_id(s, u),
    ensures
        0 <= user_index(s, u) < s.len(),
        s[user_index(s, u)].id == u,
        forall|i: int| 0 <= i < s.len() && s[i].id == u ==> i == user_index(s, u),
{
    let k = user_index(s, u);
    assert(0 <= k < s.len() && s[k].id == u);
}

/// A room: identity, admission parameters, the insertion-ordered member
/// list whose first entry is the owner, the owner-controlled info value,
/// and the ordered log of sync records, of which the last is the round
/// currently open.
#[derive(Debug)]
pub struct room_t {
    pub id: u128,
    pub version: String,
    pub name: String,
    pub size: usize,
    pub lobby_lifetime: u64,
    pub game_lifetime: u64,
    pub expire_time: u64,
    pub users: Vec<user_t>,
    pub in_lobby: bool,
    pub info: serde_json::Value,
    pub sync_records: Vec<sync_record_t>,
}

/// Record ids strictly increase along the log.
pub open spec fn sorted_records(s: Seq<sync_record_t>) -> bool {
    forall|i: int, j: int|
        0 <= i < j < s.len() ==> (#[trigger] s[i]).id < (#[trigger] s[j]).id
}

impl room_t {
    /// Structural invariant of a room.
    pub open spec fn wf(self) -> bool {
        &&& 2 <= self.size <= 4
        &&& 1 <= self.version@.len() <= 32
        &&& unique_user_ids(self.users@)
        &&& self.users@.len() <= self.size
        &&& forall|i: int| 0 <= i < self.users@.len() ==> (#[trigger] self.users@[i]).wf()
        &&& self.sync_records@.len() >= 1
        &&& forall|i: int| 0 <= i < self.sync_records@.len() ==> (#[trigger] self.sync_records@[i]).wf()
        &&& sorted_records(self.sync_records@)
        &&& forall|i: int|
            0 <= i < self.users@.len() ==> (#[trigger] self.users@[i]).last_sync_id
                <= self.sync_records@.last().id
    }

    /// The record of the round currently open: the last of the log.
    pub open spec fn last_record(self) -> sync_record_t {
        self.sync_records@.last()
    }

    /// The phase of `u` on the open round.
    pub open spec fn phase_in_last(self, u: u128) -> phase_t {
        self.last_record().phase_of(u)
    }

    /// Everything but the member list and the log is unchanged.
    pub open spec fn same_shell(self, o: room_t) -> bool {
        &&& o.id == self.id
        &&& o.version == self.version
        &&& o.name == self.name
        &&& o.size == self.size
        &&& o.lobby_lifetime == self.lobby_lifetime
        &&& o.game_lifetime == self.game_lifetime
        &&& o.expire_time == self.expire_time
        &&& o.in_lobby == self.in_lobby
        &&& o.info == self.info
    }

    /// Validate parameters and construct a room holding its owner and
    /// one empty, open record. The room expires `lobby_lifetime` after
    /// `now` unless the game is started.
    pub fn new(
        version: String,
        owner: user_t,
        name: String,
        size: usize,
        lobby_lifetime: u64,
        game_lifetime: u64,
        now: u64,
    ) -> (r: Result<Self, AgError>)
        requires
            owner.wf(),
            now + lobby_lifetime <= u64::MAX,
        ensures
            match r {
                Ok(room) => {
                    &&& 1 <= version@.len() <= 32
                    &&& 2 <= size <= 4
                    &&& room.wf()
                    &&& 0 < room.id < u128::MAX
                    &&& room.version == version
                    &&& room.name == name
                    &&& room.size == size
                    &&& room.lobby_lifetime == lobby_lifetime
                    &&& room.game_lifetime == game_lifetime
                    &&& room.expire_time == now + lobby_lifetime
                    &&& room.in_lobby
                    &&& room.users@.len() == 1
                    &&& room.users@[0].id == owner.id
                    &&& room.users@[0].name == owner.name
                    &&& room.users@[0].last_sync_id == 0
                    &&& room.users@[0].last_time == now
                    &&& room.sync_records@.len() == 1
                    &&& room.last_record().reports@.len() == 0
                    &&& room.last_record().actions@.len() == 0
                    &&& forall|u: u128| room.phase_in_last(u) is CREATED
                },
                Err(e) => is_bad_request(
                    e,
                    if !(1 <= version@.len() <= 32) {
                        "Invalid room version length. Must be between 1 and 32."@
                    } else {
                        "Invalid room size. Must be between 2 and 4."@
                    },
                ) && !(1 <= version@.len() <= 32 && 2 <= size <= 4),
            },
    {
        let vlen = version.as_str().unicode_len();
        if vlen == 0 || vlen > 32 {
            return Err(
                AgError::bad_request_error(
                    "Invalid room version length. Must be between 1 and 32.",
                ),
            );
        }
        if size < 2 || size > 4 {
            return Err(AgError::bad_request_error("Invalid room size. Must be between 2 and 4."));
        }
        let mut owner = owner;
        owner.update_last(0, now);
        let mut users: Vec<user_t> = Vec::new();
        users.push(owner);
        let record = sync_record_t::new();
        let mut sync_records: Vec<sync_record_t> = Vec::new();
        sync_records.push(record);
        Ok(
            room_t {
                id: fresh_id(),
                version,
                name,
                size,
                lobby_lifetime,
                game_lifetime,
                expire_time: now + lobby_lifetime,
                users,
                in_lobby: true,
                info: default_value(),
                sync_records,
            },
        )
    }

    /// The time at which the room expires.
    pub fn get_expire_time(&self) -> (r: u64)
        ensures
            r == self.expire_time,
    {
        self.expire_time
    }

    /// Admit a user to the lobby. The protocol version must match, the
    /// game must not have started, the room must not be full, and the id
    /// must be new. The joiner's bookmark is set to the open record when
    /// rounds have already run, and to nil otherwise, so that an early
    /// joiner still receives the inaugural round.
    pub fn join(&mut self, version: &str, user: user_t, now: u64) -> (r: Result<(), AgError>)
        requires
            old(self).wf(),
            user.wf(),
        ensures
            final(self).wf(),
            final(self).same_shell(*old(self)),
            final(self).sync_records@ == old(self).sync_records@,
            match r {
                Ok(_) => {
                    &&& version@ == old(self).version@
                    &&& old(self).in_lobby
                    &&& old(self).users@.len() < old(self).size
                    &&& !has_user_id(old(self).users@, user.id)
                    &&& final(self).users@.len() == old(self).users@.len() + 1
                    &&& forall|i: int|
                        0 <= i < old(self).users@.len() ==> final(self).users@[i] == old(
                            self,
                        ).users@[i]
                    &&& final(self).users@.last().id == user.id
                    &&& final(self).users@.last().name == user.name
                    &&& final(self).users@.last().last_sync_id == if old(
                        self,
                    ).sync_records@.len() > 1 {
                        old(self).last_record().id
                    } else {
                        0
                    }
                    &&& final(self).users@.last().last_time == now
                },
                Err(e) => {
                    &&& final(self).users@ == old(self).users@
                    &&& {
                        if version@ != old(self).version@ {
                            is_bad_request(e, "Invalid room version."@)
                        } else if !old(self).in_lobby {
                            is_forbidden(e, "Game already started."@)
                        } else if old(self).users@.len() >= old(self).size {
                            is_forbidden(e, "Room is full."@)
                        } else {
                            has_user_id(old(self).users@, user.id) && is_forbidden(
                                e,
                                "User already in the room."@,
                            )
                        }
                    }
                },
            },
    {
        if !str_eq(version, self.version.as_str()) {
            return Err(AgError::bad_request_error("Invalid room version."));
        }
        if !self.in_lobby {
            return Err(AgError::forbidden_error("Game already started."));
        }
        if self.users.len() >= self.size {
            return Err(AgError::forbidden_error("Room is full."));
        }
        if self.find_user(user.id).is_some() {
            return Err(AgError::forbidden_error("User already in the room."));
        }
        let bookmark: u128 = if self.sync_records.len() > 1 {
            self.sync_records[self.sync_records.len() - 1].id
        } else {
            0
        };
        let mut user = user;
        user.update_last(bookmark, now);
        self.users.push(user);
        proof {
            assert(final(self).users@.drop_last() =~= old(self).users@);
        }
        Ok(())
    }

    fn find_user(&self, id: u128) -> (r: Option<usize>)
        ensures
            match r {
                Some(i) => i < self.users@.len() && self.users@[i as int].id == id,
                None => !has_user_id(self.users@, id),
            },
    {
        let mut i: usize = 0;
        while i < self.users.len()
            invariant
                0 <= i <= self.users@.len(),
                forall|j: int| 0 <= j < i ==> (#[trigger] self.users@[j]).id != id,
            decreases self.users@.len() - i,
        {
            if self.users[i].id == id {
                return Some(i);
            }
            i = i + 1;
        }
        None
    }

    /// Look up a member by id; a copy of the entry, or *not-found*.
    pub fn get_user(&self, id: u128) -> (r: Result<user_t, AgError>)
        requires
            self.wf(),
        ensures
            match r {
                Ok(u) => has_user_id(self.users@, id) && u == self.users@[user_index(
                    self.users@,
                    id,
                )],
                Err(e) => !has_user_id(self.users@, id) && is_not_found(e, "User not found."@),
            },
    {
        match self.find_user(id) {
            Some(i) => {
                proof {
                    lemma_user_index(self.users@, id);
                }
                Ok(self.users[i].clone())
            },
            None => Err(AgError::not_found_error("User not found.")),
        }
    }

    /// Whether a member with this id is present.
    pub fn has_user(&self, id: u128) -> (r: bool)
        ensures
            r == has_user_id(self.users@, id),
    {
        self.find_user(id).is_some()
    }

    /// Remove the member with this id; whether one was present.
    pub fn kick(&mut self, id: u128) -> (r: bool)
        requires
            old(self).wf(),
        ensures
            final(self).wf(),
            final(self).same_shell(*old(self)),
            final(self).sync_records@ == old(self).sync_records@,
            r == has_user_id(old(self).users@, id),
            r ==> final(self).users@ == old(self).users@.remove(
                user_index(old(self).users@, id),
            ),
            !r ==> final(self).users@ == old(self).users@,
    {
        match self.find_user(id) {
            Some(i) => {
                proof {
                    lemma_user_index(self.users@, id);
                }
                let _ = self.users.remove(i);
                true
            },
            None => false,
        }
    }

    /// Remove every member whose last activity is more than `timeout`
    /// milliseconds before `now`; the number removed.
    pub fn kick_expired(&mut self, timeout: u64, now: u64) -> (r: usize)
        requires
            old(self).wf(),
        ensures
            final(self).wf(),
            final(self).same_shell(*old(self)),
            final(self).sync_records@ == old(self).sync_records@,
            final(self).users@ == old(self).users@.filter(
                |u: user_t| u.last_time + timeout >= now,
            ),
            r == old(self).users@.len() - final(self).users@.len(),
    {
        let ghost pred = |u: user_t| u.last_time + timeout >= now;
        let mut kept: Vec<user_t> = Vec::new();
        let mut i: usize = 0;
        while i < self.users.len()
            invariant
                0 <= i <= self.users@.len(),
                kept@ == self.users@.take(i as int).filter(pred),
                pred == (|u: user_t| u.last_time + timeout >= now),
            decreases self.users@.len() - i,
        {
            proof {
                reveal(Seq::filter);
                assert(self.users@.take(i as int + 1).drop_last() =~= self.users@.take(i as int));
            }
            let keep = (self.users[i].last_time as u128) + (timeout as u128) >= (now as u128);
            if keep {
                kept.push(self.users[i].clone());
            }
            i = i + 1;
        }
        proof {
            assert(self.users@.take(self.users@.len() as int) =~= self.users@);
            self.users@.lemma_filter_len(pred);
        }
        let removed = self.users.len() - kept.len();
        self.users = kept;
        proof {
            let f = final(self).users@;
            let o = old(self).users@;
            lemma_filter_from(o, pred);
            assert forall|k: int| 0 <= k < f.len() implies (#[trigger] f[k]).wf()
                && f[k].last_sync_id <= final(self).sync_records@.last().id by {
                assert(o.contains(f[k]));
                let j = choose|j: int| 0 <= j < o.len() && o[j] == f[k];
                assert(o[j].wf());
            }
        }
        removed
    }

    /// The number of members.
    pub fn count_users(&self) -> (r: usize)
        ensures
            r == self.users@.len(),
    {
        self.users.len()
    }

    /// The ids of the members, in insertion order.
    pub fn get_user_ids(&self) -> (r: Vec<u128>)
        ensures
            r@ == self.users@.map_values(|u: user_t| u.id),
    {
        let mut ids: Vec<u128> = Vec::new();
        let mut i: usize = 0;
        while i < self.users.len()
            invariant
                0 <= i <= self.users@.len(),
                ids@ == self.users@.take(i as int).map_values(|u: user_t| u.id),
            decreases self.users@.len() - i,
        {
            ids.push(self.users[i].id);
            proof {
                assert(ids@ =~= self.users@.take(i as int + 1).map_values(|u: user_t| u.id));
            }
            i = i + 1;
        }
        proof {
            assert(self.users@.take(self.users@.len() as int) =~= self.users@);
        }
        ids
    }

    /// Copies of the members, in insertion order.
    pub fn get_users(&self) -> (r: Vec<user_t>)
        ensures
            r@ == self.users@,
    {
        let mut us: Vec<user_t> = Vec::new();
        let mut i: usize = 0;
        while i < self.users.len()
            invariant
                0 <= i <= self.users@.len(),
                us@ == self.users@.take(i as int),
            decreases self.users@.len() - i,
        {
            us.push(self.users[i].clone());
            proof {
                assert(us@ =~= self.users@.take(i as int + 1));
            }
            i = i + 1;
        }
        proof {
            assert(self.users@.take(self.users@.len() as int) =~= self.users@);
        }
        us
    }

    /// The owner: the first member in insertion order.
    pub fn get_owner(&self) -> (r: Result<user_t, AgError>)
        ensures
            match r {
                Ok(u) => self.users@.len() > 0 && u == self.users@[0],
                Err(e) => self.users@.len() == 0 && is_not_found(e, "Room is empty."@),
            },
    {
        if self.users.len() == 0 {
            return Err(AgError::not_found_error("Room is empty."));
        }
        Ok(self.users[0].clone())
    }

    /// Whether the room is still in its lobby.
    pub fn is_in_lobby(&self) -> (r: bool)
        ensures
            r == self.in_lobby,
    {
        self.in_lobby
    }

    /// Leave the lobby: requires at least two members; stamps the game
    /// expiry.
    pub fn start_game(&mut self, now: u64) -> (r: Result<(), AgError>)
        requires
            old(self).wf(),
            now + old(self).game_lifetime <= u64::MAX,
        ensures
            final(self).wf(),
            final(self).users@ == old(self).users@,
            final(self).sync_records@ == old(self).sync_records@,
            final(self).id == old(self).id,
            final(self).version == old(self).version,
            final(self).name == old(self).name,
            final(self).size == old(self).size,
            final(self).lobby_lifetime == old(self).lobby_lifetime,
            final(self).game_lifetime == old(self).game_lifetime,
            final(self).info == old(self).info,
            match r {
                Ok(_) => {
                    &&& old(self).in_lobby
                    &&& old(self).users@.len() >= 2
                    &&& !final(self).in_lobby
                    &&& final(self).expire_time == now + old(self).game_lifetime
                },
                Err(e) => {
                    &&& final(self).in_lobby == old(self).in_lobby
                    &&& final(self).expire_time == old(self).expire_time
                    &&& if !old(self).in_lobby {
                        is_forbidden(e, "Game already started."@)
                    } else {
                        old(self).users@.len() < 2 && is_forbidden(
                            e,
                            "Not enough players to start the game."@,
                        )
                    }
                },
            },
    {
        if !self.in_lobby {
            return Err(AgError::forbidden_error("Game already started."));
        }
        if self.users.len() < 2 {
            return Err(AgError::forbidden_error("Not enough players to start the game."));
        }
        self.in_lobby = false;
        self.expire_time = now + self.game_lifetime;
        Ok(())
    }

    /// Leave the lobby on behalf of a caller: only the owner may do it.
    pub fn start_game_as(&mut self, user_id: u128, now: u64) -> (r: Result<(), AgError>)
        requires
            old(self).wf(),
            now + old(self).game_lifetime <= u64::MAX,
        ensures
            final(self).wf(),
            final(self).users@ == old(self).users@,
            final(self).sync_records@ == old(self).sync_records@,
            match r {
                Ok(_) => {
                    &&& old(self).users@.len() >= 2
                    &&& old(self).users@[0].id == user_id
                    &&& old(self).in_lobby
                    &&& !final(self).in_lobby
                    &&& final(self).expire_time == now + old(self).game_lifetime
                },
                Err(e) => {
                    &&& final(self).in_lobby == old(self).in_lobby
                    &&& final(self).expire_time == old(self).expire_time
                    &&& if old(self).users@.len() == 0 {
                        is_not_found(e, "Room is empty."@)
                    } else if old(self).users@[0].id != user_id {
                        is_forbidden(e, "Only owner can start the game."@)
                    } else if !old(self).in_lobby {
                        is_forbidden(e, "Game already started."@)
                    } else {
                        old(self).users@.len() < 2 && is_forbidden(
                            e,
                            "Not enough players to start the game."@,
                        )
                    }
                },
            },
    {
        let owner = match self.get_owner() {
            Ok(u) => u,
            Err(e) => {
                return Err(e);
            },
        };
        if owner.id != user_id {
            return Err(AgError::forbidden_error("Only owner can start the game."));
        }
        self.start_game(now)
    }

    /// Whether the room should be kept: not yet expired and still
    /// peopled (one member suffices in the lobby, two in game).
    pub fn is_available(&self, now: u64) -> (r: bool)
        ensures
            r == (now <= self.expire_time && if self.in_lobby {
                self.users@.len() >= 1
            } else {
                self.users@.len() >= 2
            }),
    {
        if now > self.expire_time {
            return false;
        }
        if self.in_lobby {
            self.users.len() >= 1
        } else {
            self.users.len() >= 2
        }
    }

    /// A copy of the owner-controlled room info.
    pub fn get_info(&self) -> (r: serde_json::Value)
        ensures
            r == self.info,
    {
        self.info.clone()
    }

    /// Overwrite the room info. Policy — only the owner's info is taken —
    /// is enforced by the caller.
    pub fn update_info(&mut self, new_info: serde_json::Value)
        ensures
            final(self).info == new_info,
            final(self).users@ == old(self).users@,
            final(self).sync_records@ == old(self).sync_records@,
            final(self).id == old(self).id,
            final(self).version == old(self).version,
            final(self).name == old(self).name,
            final(self).size == old(self).size,
            final(self).lobby_lifetime == old(self).lobby_lifetime,
            final(self).game_lifetime == old(self).game_lifetime,
            final(self).expire_time == old(self).expire_time,
            final(self).in_lobby == old(self).in_lobby,
            old(self).wf() ==> final(self).wf(),
    {
        self.info = new_info;
    }

    /// Refuse a sync request issued within `cooldown` milliseconds of
    /// the user's last activity.
    pub fn check_cooldown(&self, user_id: u128, now: u64, cooldown: u64) -> (r: Result<
        (),
        AgError,
    >)
        requires
            self.wf(),
        ensures
            match r {
                Ok(_) => has_user_id(self.users@, user_id) && now - self.users@[user_index(
                    self.users@,
                    user_id,
                )].last_time >= cooldown,
                Err(e) => {
                    if !has_user_id(self.users@, user_id) {
                        is_not_found(e, "User not found."@)
                    } else {
                        now - self.users@[user_index(self.users@, user_id)].last_time < cooldown
                            && is_too_many_requests(
                            e,
                            "Wait 100ms before sending another sync request."@,
                        )
                    }
                },
            },
    {
        let u = match self.get_user(user_id) {
            Ok(u) => u,
            Err(e) => {
                return Err(e);
            },
        };
        if now < u.last_time || now - u.last_time < cooldown {
            if now < u.last_time {
                proof {
                    lemma_user_index(self.users@, user_id);
                }
            }
            return Err(
                AgError::too_many_requests_error("Wait 100ms before sending another sync request."),
            );
        }
        Ok(())
    }

    /// Whether any member has not advanced past `CREATED` on the open
    /// round.
    pub fn some_unobserved(&self) -> (b: bool)
        requires
            self.sync_records@.len() >= 1,
            unique_users(self.last_record().users_phase@),
        ensures
            b == exists|i: int|
                0 <= i < self.users@.len() && self.phase_in_last(
                    (#[trigger] self.users@[i]).id,
                ).as_int() <= 0,
    {
        let n = self.sync_records.len();
        let last = &self.sync_records[n - 1];
        let mut i: usize = 0;
        while i < self.users.len()
            invariant
                self.sync_records@.len() >= 1,
                unique_users(self.last_record().users_phase@),
                n == self.sync_records@.len(),
                0 <= i <= self.users@.len(),
                forall|j: int|
                    0 <= j < i ==> self.phase_in_last((#[trigger] self.users@[j]).id).as_int()
                        > 0,
                last == &self.sync_records@.last(),
            decreases self.users@.len() - i,
        {
            if last.peek_phase(self.users[i].id).num() == 0 {
                return true;
            }
            i = i + 1;
        }
        false
    }

    /// Whether every member is settled on the open round: at `CREATED`
    /// or at `SYNCED`, nobody mid-round.
    pub fn all_settled_now(&self) -> (b: bool)
        requires
            self.sync_records@.len() >= 1,
            unique_users(self.last_record().users_phase@),
        ensures
            b == settled_on(self.users@, self.last_record()),
    {
        let n = self.sync_records.len();
        let last = &self.sync_records[n - 1];
        let mut i: usize = 0;
        while i < self.users.len()
            invariant
                self.sync_records@.len() >= 1,
                unique_users(self.last_record().users_phase@),
                n == self.sync_records@.len(),
                0 <= i <= self.users@.len(),
                forall|j: int|
                    0 <= j < i ==> {
                        let p = self.last_record().phase_of(
                            (#[trigger] self.users@[j]).id,
                        ).as_int();
                        p <= 0 || p >= 3
                    },
                last == &self.sync_records@.last(),
            decreases self.users@.len() - i,
        {
            let p = last.peek_phase(self.users[i].id).num();
            if p >= 1 && p <= 2 {
                return false;
            }
            i = i + 1;
        }
        true
    }

    /// The maximum phase on the open round.
    pub fn current_max_phase(&self) -> (r: phase_t)
        requires
            self.wf(),
        ensures
            r == self.last_record().max_phase(),
    {
        let n = self.sync_records.len();
        self.sync_records[n - 1].get_max_phase()
    }

    /// Step A of the barrier: deposit the caller's submissions into the
    /// open round. The caller must be a member that has not yet acted in
    /// this round, and the round must not have closed. Returns whether
    /// the caller should hold the slow-joiner wait: the round so far has
    /// nobody past `WAITING`, and earlier rounds exist.
    pub fn sync_deposit(
        &mut self,
        user_id: u128,
        reports: Vec<event_t>,
        actions: Vec<event_t>,
    ) -> (r: Result<bool, AgError>)
        requires
            old(self).wf(),
        ensures
            final(self).wf(),
            match r {
                Ok(b) => {
                    &&& has_user_id(old(self).users@, user_id)
                    &&& old(self).phase_in_last(user_id) is CREATED
                    &&& old(self).last_record().max_phase().as_int() < 3
                    &&& deposited(*old(self), *final(self), user_id, reports@, actions@)
                    &&& b == (final(self).last_record().max_phase().as_int() <= 1 && old(
                        self,
                    ).sync_records@.len() > 1)
                },
                Err(e) => {
                    &&& final(self).users@ == old(self).users@
                    &&& final(self).sync_records@ == old(self).sync_records@
                    &&& final(self).same_shell(*old(self))
                    &&& if !has_user_id(old(self).users@, user_id) {
                        is_forbidden(e, "User not in the room."@)
                    } else if !(old(self).phase_in_last(user_id) is CREATED) {
                        is_forbidden(e, "User already synced."@)
                    } else if old(self).last_record().max_phase().as_int() >= 3 {
                        is_forbidden(e, "Room already synced."@)
                    } else if !all_from(reports@, user_id) {
                        is_bad_request(e, "Invalid report from."@)
                    } else {
                        !all_from(actions@, user_id) && is_bad_request(
                            e,
                            "Invalid action from."@,
                        )
                    }
                },
            },
    {
        if self.find_user(user_id).is_none() {
            return Err(AgError::forbidden_error("User not in the room."));
        }
        let n = self.sync_records.len();
        let mut rec = self.sync_records.pop().unwrap();
        let ghost pre_rec = rec;
        if rec.peek_phase(user_id).num() > 0 {
            self.sync_records.push(rec);
            proof {
                assert(self.sync_records@ =~= old(self).sync_records@);
            }
            return Err(AgError::forbidden_error("User already synced."));
        }
        if rec.get_max_phase().num() >= 3 {
            self.sync_records.push(rec);
            proof {
                assert(self.sync_records@ =~= old(self).sync_records@);
            }
            return Err(AgError::forbidden_error("Room already synced."));
        }
        match rec.add_events(user_id, reports, actions) {
            Ok(_) => {},
            Err(e) => {
                self.sync_records.push(rec);
                proof {
                    assert(self.sync_records@ =~= old(self).sync_records@);
                }
                return Err(e);
            },
        }
        let need_wait = rec.get_max_phase().num() <= 1 && n > 1;
        self.sync_records.push(rec);
        proof {
            let f = self.sync_records@;
            let o = old(self).sync_records@;
            assert(f =~= o.drop_last().push(rec));
            assert forall|i: int| 0 <= i < o.len() - 1 implies (#[trigger] f[i]) == o[i] by {
                assert(o.drop_last()[i] == o[i]);
            }
            assert(f.last() == rec);
            assert(sorted_records(f)) by {
                assert forall|i: int, j: int|
                    0 <= i < j < f.len() implies (#[trigger] f[i]).id < (#[trigger] f[j]).id by {
                    assert(o[i].id < o[j].id);
                }
            }
            assert forall|i: int| 0 <= i < f.len() implies (#[trigger] f[i]).wf() by {
                if i < f.len() - 1 {
                    assert(o[i].wf());
                }
            }
        }
        Ok(need_wait)
    }

    /// Step C of the barrier: raise the caller to `SYNCING` on the open
    /// round. Returns whether the caller should hold the consensus wait:
    /// some member has not acted in this round at all.
    pub fn sync_mark_syncing(&mut self, user_id: u128) -> (r: Result<bool, AgError>)
        requires
            old(self).wf(),
        ensures
            final(self).wf(),
            match r {
                Ok(b) => {
                    &&& has_user_id(old(self).users@, user_id)
                    &&& marked_syncing(*old(self), *final(self), user_id)
                    &&& b == exists|i: int|
                        0 <= i < final(self).users@.len() && final(self).phase_in_last(
                            (#[trigger] final(self).users@[i]).id,
                        ).as_int() <= 0
                },
                Err(e) => {
                    &&& !has_user_id(old(self).users@, user_id)
                    &&& is_forbidden(e, "User not in the room."@)
                    &&& final(self).users@ == old(self).users@
                    &&& final(self).sync_records@ == old(self).sync_records@
                    &&& final(self).same_shell(*old(self))
                },
            },
    {
        if self.find_user(user_id).is_none() {
            return Err(AgError::forbidden_error("User not in the room."));
        }
        let mut rec = self.sync_records.pop().unwrap();
        let _ = rec.advance_phase(user_id, phase_t::SYNCING);
        self.sync_records.push(rec);
        proof {
            let f = self.sync_records@;
            let o = old(self).sync_records@;
            assert(f =~= o.drop_last().push(rec));
            assert forall|i: int| 0 <= i < o.len() - 1 implies (#[trigger] f[i]) == o[i] by {
                assert(o.drop_last()[i] == o[i]);
            }
            assert(sorted_records(f)) by {
                assert forall|i: int, j: int|
                    0 <= i < j < f.len() implies (#[trigger] f[i]).id < (#[trigger] f[j]).id by {
                    assert(o[i].id < o[j].id);
                }
            }
            assert forall|i: int| 0 <= i < f.len() implies (#[trigger] f[i]).wf() by {
                if i < f.len() - 1 {
                    assert(o[i].wf());
                }
            }
        }
        let b = self.some_unobserved();
        Ok(b)
    }

    /// Steps E to H of the barrier: raise the caller to `SYNCED` on the
    /// open round and on every record above the caller's bookmark, and
    /// return copies of those records — the catch-up slice, in log
    /// order. When that leaves no member mid-round, append a fresh empty
    /// record: the next round. Finally move the caller's bookmark to the
    /// round just synchronized and stamp their activity at `now`.
    pub fn sync_finalize(&mut self, user_id: u128, now: u64) -> (r: Result<
        Vec<sync_record_t>,
        AgError,
    >)
        requires
            old(self).wf(),
        ensures
            final(self).wf(),
            match r {
                Ok(v) => finalized(*old(self), *final(self), user_id, now, v@),
                Err(e) => {
                    &&& !has_user_id(old(self).users@, user_id)
                    &&& is_forbidden(e, "User not in the room."@)
                    &&& final(self).users@ == old(self).users@
                    &&& final(self).sync_records@ == old(self).sync_records@
                    &&& final(self).same_shell(*old(self))
                },
            },
    {
        let idx = match self.find_user(user_id) {
            Some(i) => i,
            None => {
                return Err(AgError::forbidden_error("User not in the room."));
            },
        };
        proof {
            lemma_user_index(old(self).users@, user_id);
            assert(idx as int == user_index(old(self).users@, user_id));
        }
        let cursor = self.users[idx].last_sync_id;
        let n = self.sync_records.len();
        let ghost o = old(self).sync_records@;
        // Step E: the caller reaches SYNCED on the open round.
        let mut rec = self.sync_records.pop().unwrap();
        let _ = rec.advance_phase(user_id, phase_t::SYNCED);
        self.sync_records.push(rec);
        let ghost base = self.sync_records@;
        proof {
            assert(base =~= o.drop_last().push(rec));
            assert forall|i: int| 0 <= i < n - 1 implies (#[trigger] base[i]) == o[i] by {
                assert(o.drop_last()[i] == o[i]);
            }
            assert(sorted_records(base)) by {
                assert forall|i: int, j: int|
                    0 <= i < j < base.len() implies (#[trigger] base[i]).id < (
                    #[trigger] base[j]).id by {
                    assert(o[i].id < o[j].id);
                }
            }
            assert forall|i: int| 0 <= i < base.len() implies (#[trigger] base[i]).wf() by {
                if i < base.len() - 1 {
                    assert(o[i].wf());
                }
            }
        }
        // Step F: find where the catch-up slice starts.
        let mut cut: usize = 0;
        while cut < n && self.sync_records[cut].id <= cursor
            invariant
                0 <= cut <= n,
                n == self.sync_records@.len(),
                self.sync_records@ == base,
                forall|i: int| 0 <= i < cut ==> (#[trigger] base[i]).id <= cursor,
            decreases n - cut,
        {
            cut = cut + 1;
        }
        proof {
            lemma_cut_of(base, cursor);
            lemma_cut_unique(base, cursor, cut as int);
            assert forall|i: int| 0 <= i < cut implies (#[trigger] o[i]).id <= cursor by {
                assert(base[i].id <= cursor);
                assert(o[i].id == base[i].id);
            }
            if (cut as int) < o.len() {
                assert(base[cut as int].id > cursor);
                assert(o[cut as int].id == base[cut as int].id);
            }
            lemma_cut_unique(o, cursor, cut as int);
        }
        // Advance the caller on every record of the slice and copy it.
        let mut out: Vec<sync_record_t> = Vec::new();
        let mut k: usize = cut;
        while k < n
            invariant
                cut <= k <= n,
                n == self.sync_records@.len(),
                forall|i: int| 0 <= i < n && !(cut <= i < k) ==> (#[trigger] self.sync_records@[i])
                    == base[i],
                forall|i: int|
                    cut <= i < k ==> advanced_to_synced(
                        base[i],
                        #[trigger] self.sync_records@[i],
                        user_id,
                    ),
                forall|i: int| 0 <= i < n ==> (#[trigger] self.sync_records@[i]).wf(),
                forall|i: int| 0 <= i < n ==> (#[trigger] self.sync_records@[i]).id == base[i].id,
                out@.len() == k - cut,
                forall|j: int|
                    0 <= j < out@.len() ==> rec_eq(
                        #[trigger] out@[j],
                        self.sync_records@[cut + j],
                    ),
                self.users@ == old(self).users@,
                self.same_shell(*old(self)),
            decreases n - k,
        {
            let ghost before = self.sync_records@;
            let mut rec = self.sync_records.remove(k);
            let _ = rec.advance_phase(user_id, phase_t::SYNCED);
            out.push(rec.clone());
            self.sync_records.insert(k, rec);
            proof {
                assert(self.sync_records@ =~= before.update(k as int, rec));
            }
            k = k + 1;
        }
        // Step G: roll the round over when nobody is left mid-round.
        let settled = self.all_settled_now();
        let ghost mid = self.sync_records@;
        let last_id = self.sync_records[n - 1].id;
        proof {
            assert(last_id == o.last().id);
        }
        let mut rolled = false;
        if settled && last_id < u128::MAX {
            let c = fresh_id();
            let new_id: u128 = if c > last_id {
                c
            } else {
                last_id + 1
            };
            self.sync_records.push(sync_record_t::with_id(new_id));
            rolled = true;
            proof {
                assert forall|i: int| 0 <= i < mid.len() implies (#[trigger] self.sync_records@[i])
                    == mid[i] by {}
                assert(sorted_records(self.sync_records@)) by {
                    assert forall|i: int, j: int|
                        0 <= i < j < self.sync_records@.len() implies (
                        #[trigger] self.sync_records@[i]).id < (
                        #[trigger] self.sync_records@[j]).id by {
                        if j < self.sync_records@.len() - 1 {
                            assert(o[i].id < o[j].id);
                        } else if i < n - 1 {
                            assert(o[i].id < o[n - 1].id);
                        }
                    }
                }
            }
        }
        // Step H: move the caller's bookmark to the synchronized round.
        let mut u = self.users.remove(idx);
        u.update_last(last_id, now);
        self.users.insert(idx, u);
        proof {
            assert(self.users@ =~= old(self).users@.update(idx as int, self.users@[idx as int]));
            let f = *self;
            let pre = *old(self);
            assert forall|i: int|
                0 <= i < pre.users@.len() && i != idx as int implies (#[trigger] f.users@[i])
                    == pre.users@[i] by {}
            assert(f.users@[idx as int].last_sync_id == pre.last_record().id);
            // the invariant: every bookmark is at most the open record's id
            assert forall|i: int| 0 <= i < f.users@.len() implies (
            #[trigger] f.users@[i]).last_sync_id <= f.sync_records@.last().id by {
                if i != idx as int {
                    assert(pre.users@[i].last_sync_id <= o.last().id);
                    assert(f.sync_records@.last().id >= o.last().id);
                } else {
                    assert(f.sync_records@.last().id >= o.last().id);
                }
            }
            assert forall|i: int| 0 <= i < f.users@.len() implies (#[trigger] f.users@[i]).wf() by {
                if i != idx as int {
                    assert(pre.users@[i].wf());
                } else {
                    assert(pre.users@[idx as int].wf());
                }
            }
            assert(unique_user_ids(f.users@)) by {
                assert forall|i: int, j: int|
                    0 <= i < j < f.users@.len() implies (#[trigger] f.users@[i]).id != (
                    #[trigger] f.users@[j]).id by {
                    assert(pre.users@[i].id != pre.users@[j].id);
                }
            }
            if rolled {
                assert(settled_on(pre.users@, f.sync_records@[n as int - 1]));
            } else {
                assert(!(settled_on(pre.users@, f.sync_records@[n as int - 1])
                    && pre.last_record().id < u128::MAX)) by {
                    assert(f.sync_records@[n as int - 1] == mid[n as int - 1]);
                }
            }
        }
        Ok(out)
    }

    /// The synchronization barrier run in one call, without the waits:
    /// deposit, mark `SYNCING`, finalize. The concurrent shell calls the
    /// three steps itself, holding its waits between them.
    pub fn sync(
        &mut self,
        user_id: u128,
        reports: Vec<event_t>,
        actions: Vec<event_t>,
        now: u64,
    ) -> (r: Result<Vec<sync_record_t>, AgError>)
        requires
            old(self).wf(),
        ensures
            final(self).wf(),
            match r {
                Ok(v) => exists|mid1: room_t, mid2: room_t|
                    {
                        &&& #[trigger] deposited(*old(self), mid1, user_id, reports@, actions@)
                        &&& #[trigger] marked_syncing(mid1, mid2, user_id)
                        &&& finalized(mid2, *final(self), user_id, now, v@)
                    },
                Err(e) => {
                    &&& final(self).users@ == old(self).users@
                    &&& final(self).sync_records@ == old(self).sync_records@
                    &&& final(self).same_shell(*old(self))
                    &&& if !has_user_id(old(self).users@, user_id) {
                        is_forbidden(e, "User not in the room."@)
                    } else if !(old(self).phase_in_last(user_id) is CREATED) {
                        is_forbidden(e, "User already synced."@)
                    } else if old(self).last_record().max_phase().as_int() >= 3 {
                        is_forbidden(e, "Room already synced."@)
                    } else if !all_from(reports@, user_id) {
                        is_bad_request(e, "Invalid report from."@)
                    } else {
                        !all_from(actions@, user_id) && is_bad_request(
                            e,
                            "Invalid action from."@,
                        )
                    }
                },
            },
    {
        match self.sync_deposit(user_id, reports, actions) {
            Ok(_) => {},
            Err(e) => {
                return Err(e);
            },
        }
        let ghost m1 = *self;
        match self.sync_mark_syncing(user_id) {
            Ok(_) => {},
            Err(e) => {
                // unreachable: the deposit left the caller a member
                proof {
                    assert(false);
                }
                return Err(e);
            },
        }
        let ghost m2 = *self;
        match self.sync_finalize(user_id, now) {
            Ok(v) => {
                proof {
                    assert(deposited(*old(self), m1, user_id, reports@, actions@));
                    assert(marked_syncing(m1, m2, user_id));
                }
                Ok(v)
            },
            Err(e) => {
                // unreachable: the deposit left the caller a member
                proof {
                    assert(false);
                }
                Err(e)
            },
        }
    }

    /// Drop every record that some current member has fully consumed
    /// (reached `SYNCED` on), keeping the open record; the number
    /// dropped. Intent: a record every remaining member has seen need
    /// not be replayed to anyone.
    pub fn clean_sync_records(&mut self) -> (r: usize)
        requires
            old(self).wf(),
        ensures
            final(self).wf(),
            final(self).same_shell(*old(self)),
            final(self).users@ == old(self).users@,
            final(self).sync_records@ == cleaned(old(self).sync_records@, old(self).users@),
            r == old(self).sync_records@.len() - final(self).sync_records@.len(),
    {
        let n = self.sync_records.len();
        let ghost o = old(self).sync_records@;
        let mut kept: Vec<sync_record_t> = Vec::new();
        while self.sync_records.len() > 1
            invariant
                self.sync_records@.len() >= 1,
                self.users@ == old(self).users@,
                self.same_shell(*old(self)),
                forall|i: int| 0 <= i < self.sync_records@.len() ==> (
                #[trigger] self.sync_records@[i]).wf(),
                unique_user_ids(self.users@),
                kept@ + cleaned(self.sync_records@, self.users@) == cleaned(o, old(self).users@),
            decreases self.sync_records@.len(),
        {
            let ghost before = self.sync_records@;
            let rec = self.sync_records.remove(0);
            proof {
                assert(self.sync_records@ =~= before.drop_first());
                assert(before.first() == rec);
            }
            if !is_consumed(&rec, &self.users) {
                kept.push(rec);
                proof {
                    assert(kept@.drop_last() + seq![rec] =~= kept@);
                    assert(seq![rec] + cleaned(self.sync_records@, self.users@) =~= cleaned(
                        before,
                        self.users@,
                    ));
                    assert(kept@.drop_last() + (seq![rec] + cleaned(
                        self.sync_records@,
                        self.users@,
                    )) =~= kept@ + cleaned(self.sync_records@, self.users@));
                }
            }
        }
        let last = self.sync_records.remove(0);
        kept.push(last);
        proof {
            assert(cleaned(seq![last], old(self).users@) == seq![last]);
        }
        self.sync_records = kept;
        proof {
            assert(final(self).sync_records@ =~= cleaned(o, old(self).users@));
            lemma_cleaned(o, old(self).users@);
            let f = final(self).sync_records@;
            assert(f.last() == o.last());
            assert forall|i: int| 0 <= i < f.len() implies (#[trigger] f[i]).wf() by {
                assert(o.contains(f[i]));
                let j = choose|j: int| 0 <= j < o.len() && o[j] == f[i];
                assert(o[j].wf());
            }
            assert forall|i: int| 0 <= i < final(self).users@.len() implies (
            #[trigger] final(self).users@[i]).last_sync_id <= f.last().id by {
                assert(old(self).users@[i].last_sync_id <= o.last().id);
            }
        }
        n - self.sync_records.len()
    }
}

/// The phases of `a` and `b` agree except that `u` was raised to at
/// least `SYNCED`; ids and events agree.
pub open spec fn advanced_to_synced(a: sync_record_t, b: sync_record_t, u: u128) -> bool {
    &&& b.id == a.id
    &&& b.reports == a.reports
    &&& b.actions == a.actions
    &&& b.phase_of(u) == phase_max(a.phase_of(u), phase_t::SYNCED)
    &&& forall|x: u128| x != u ==> b.phase_of(x) == a.phase_of(x)
}

/// The two records carry the same data: same id, events and phases.
pub open spec fn rec_eq(a: sync_record_t, b: sync_record_t) -> bool {
    &&& a.id == b.id
    &&& a.reports@ == b.reports@
    &&& a.actions@ == b.actions@
    &&& a.users_phase@ == b.users_phase@
}

/// Every listed user is settled on `r`: at `CREATED` (never took part)
/// or at `SYNCED` (done); nobody is mid-round.
pub open spec fn settled_on(users: Seq<user_t>, r: sync_record_t) -> bool {
    forall|i: int|
        0 <= i < users.len() ==> {
            let p = r.phase_of((#[trigger] users[i]).id).as_int();
            p <= 0 || p >= 3
        }
}

/// Some listed user at `SYNCED` or beyond has consumed `r`.
pub open spec fn record_consumed(r: sync_record_t, users: Seq<user_t>) -> bool {
    exists|i: int| 0 <= i < users.len() && r.phase_of((#[trigger] users[i]).id).as_int() >= 3
}

/// Where the tail of records with ids above `cursor` starts.
pub open spec fn cut_of(s: Seq<sync_record_t>, cursor: u128) -> int
    decreases s.len(),
{
    if s.len() == 0 {
        0
    } else if s.first().id <= cursor {
        1 + cut_of(s.drop_first(), cursor)
    } else {
        0
    }
}

/// In a sorted log the cut splits it exactly: ids at or below the cursor
/// before, ids above it from the cut on.
pub proof fn lemma_cut_of(s: Seq<sync_record_t>, cursor: u128)
    requires
        sorted_records(s),
    ensures
        0 <= cut_of(s, cursor) <= s.len(),
        forall|i: int| 0 <= i < cut_of(s, cursor) ==> (#[trigger] s[i]).id <= cursor,
        forall|i: int| cut_of(s, cursor) <= i < s.len() ==> (#[trigger] s[i]).id > cursor,
    decreases s.len(),
{
    if s.len() > 0 {
        let t = s.drop_first();
        assert(sorted_records(t)) by {
            assert forall|i: int, j: int|
                0 <= i < j < t.len() implies (#[trigger] t[i]).id < (#[trigger] t[j]).id by {
                assert(s[i + 1].id < s[j + 1].id);
            }
        }
        lemma_cut_of(t, cursor);
        if s.first().id <= cursor {
            let c = cut_of(s, cursor);
            assert forall|i: int| 0 <= i < c implies (#[trigger] s[i]).id <= cursor by {
                if i > 0 {
                    assert(t[i - 1].id <= cursor);
                } else {
                    if c - 1 >= 1 {
                        assert(t[0].id <= cursor);
                        assert(s[0].id < s[1].id);
                    }
                }
            }
            assert forall|i: int| c <= i < s.len() implies (#[trigger] s[i]).id > cursor by {
                assert(t[i - 1].id > cursor);
            }
        } else {
            assert forall|i: int| 0 <= i < s.len() implies (#[trigger] s[i]).id > cursor by {
                if i > 0 {
                    assert(s[0].id < s[i].id);
                }
            }
        }
    }
}

/// Any index with the cut's splitting property is the cut.
pub proof fn lemma_cut_unique(s: Seq<sync_record_t>, cursor: u128, k: int)
    requires
        sorted_records(s),
        0 <= k <= s.len(),
        forall|i: int| 0 <= i < k ==> (#[trigger] s[i]).id <= cursor,
        k < s.len() ==> s[k].id > cursor,
    ensures
        k == cut_of(s, cursor),
{
    lemma_cut_of(s, cursor);
    let c = cut_of(s, cursor);
    if k < c {
        assert(s[k].id > cursor);
        assert(s[k].id <= cursor);
    }
    if c < k {
        assert(s[c].id <= cursor);
        assert(s[c].id > cursor);
    }
}

/// What the janitor keeps of a log: every record some current member has
/// consumed is dropped, except that the open (last) record always stays.
pub open spec fn cleaned(s: Seq<sync_record_t>, users: Seq<user_t>) -> Seq<sync_record_t>
    decreases s.len(),
{
    if s.len() <= 1 {
        s
    } else if record_consumed(s.first(), users) {
        cleaned(s.drop_first(), users)
    } else {
        seq![s.first()] + cleaned(s.drop_first(), users)
    }
}

/// Cleaning keeps a sorted log sorted, keeps the last record, and keeps
/// only records of the original log.
pub proof fn lemma_cleaned(s: Seq<sync_record_t>, users: Seq<user_t>)
    requires
        sorted_records(s),
    ensures
        cleaned(s, users).len() <= s.len(),
        s.len() >= 1 ==> cleaned(s, users).len() >= 1 && cleaned(s, users).last() == s.last(),
        forall|i: int| 0 <= i < cleaned(s, users).len() ==> s.contains(#[trigger] cleaned(s, users)[i]),
        sorted_records(cleaned(s, users)),
    decreases s.len(),
{
    if s.len() > 1 {
        let t = s.drop_first();
        assert(sorted_records(t)) by {
            assert forall|i: int, j: int|
                0 <= i < j < t.len() implies (#[trigger] t[i]).id < (#[trigger] t[j]).id by {
                assert(s[i + 1].id < s[j + 1].id);
            }
        }
        lemma_cleaned(t, users);
        let c = cleaned(s, users);
        let ct = cleaned(t, users);
        assert(t.last() == s.last());
        assert forall|i: int| 0 <= i < ct.len() implies s.contains(#[trigger] ct[i]) by {
            assert(t.contains(ct[i]));
            let j = choose|j: int| 0 <= j < t.len() && t[j] == ct[i];
            assert(s[j + 1] == ct[i]);
        }
        if record_consumed(s.first(), users) {
        } else {
            assert(c == seq![s.first()] + ct);
            assert(c[0] == s.first());
            assert(s[0] == s.first());
            assert forall|i: int| 0 <= i < c.len() implies s.contains(#[trigger] c[i]) by {
                if i > 0 {
                    assert(c[i] == ct[i - 1]);
                }
            }
            assert(sorted_records(c)) by {
                assert forall|i: int, j: int|
                    0 <= i < j < c.len() implies (#[trigger] c[i]).id < (#[trigger] c[j]).id by {
                    if i == 0 {
                        assert(t.contains(ct[j - 1]));
                        let m = choose|m: int| 0 <= m < t.len() && t[m] == ct[j - 1];
                        assert(s[0].id < s[m + 1].id);
                    } else {
                        assert(ct[i - 1].id < ct[j - 1].id);
                    }
                }
            }
            assert(c.last() == ct.last());
        }
    }
}

/// `pre` became `post` by one member's deposit: the open record gained
/// the submitted reports and actions and moved the member to `WAITING`;
/// nothing else changed.
pub open spec fn deposited(
    pre: room_t,
    post: room_t,
    u: u128,
    reports: Seq<event_t>,
    actions: Seq<event_t>,
) -> bool {
    &&& post.same_shell(pre)
    &&& post.users@ == pre.users@
    &&& post.sync_records@.len() == pre.sync_records@.len()
    &&& forall|i: int|
        0 <= i < pre.sync_records@.len() - 1 ==> (#[trigger] post.sync_records@[i])
            == pre.sync_records@[i]
    &&& post.last_record().id == pre.last_record().id
    &&& post.last_record().reports@ == merge_events(pre.last_record().reports@, reports)
    &&& post.last_record().actions@ == merge_events(pre.last_record().actions@, actions)
    &&& post.phase_in_last(u) is WAITING
    &&& forall|x: u128| x != u ==> post.phase_in_last(x) == pre.phase_in_last(x)
}

/// `pre` became `post` by raising one member to `SYNCING` on the open
/// record; nothing else changed.
pub open spec fn marked_syncing(pre: room_t, post: room_t, u: u128) -> bool {
    &&& post.same_shell(pre)
    &&& post.users@ == pre.users@
    &&& post.sync_records@.len() == pre.sync_records@.len()
    &&& forall|i: int|
        0 <= i < pre.sync_records@.len() - 1 ==> (#[trigger] post.sync_records@[i])
            == pre.sync_records@[i]
    &&& post.last_record().id == pre.last_record().id
    &&& post.last_record().reports == pre.last_record().reports
    &&& post.last_record().actions == pre.last_record().actions
    &&& post.phase_in_last(u) == phase_max(pre.phase_in_last(u), phase_t::SYNCING)
    &&& forall|x: u128| x != u ==> post.phase_in_last(x) == pre.phase_in_last(x)
}

/// `pre` became `post` by one member's finalization: the member reached
/// `SYNCED` on the open record and on every record above their bookmark
/// (the catch-up slice, returned as `ret`), the round rolled over to a
/// fresh empty record exactly when no member was left mid-round (and the
/// id space allowed it), and the member's bookmark moved to the round
/// they synchronized, stamped at `now`.
pub open spec fn finalized(
    pre: room_t,
    post: room_t,
    u: u128,
    now: u64,
    ret: Seq<sync_record_t>,
) -> bool {
    let cursor = pre.users@[user_index(pre.users@, u)].last_sync_id;
    let n = pre.sync_records@.len() as int;
    let cut = cut_of(pre.sync_records@, cursor);
    let rolled = post.sync_records@.len() == n + 1;
    &&& has_user_id(pre.users@, u)
    &&& post.same_shell(pre)
    &&& post.users@.len() == pre.users@.len()
    &&& forall|i: int|
        0 <= i < pre.users@.len() && i != user_index(pre.users@, u) ==> (#[trigger] post.users@[i])
            == pre.users@[i]
    &&& post.users@[user_index(pre.users@, u)].id == u
    &&& post.users@[user_index(pre.users@, u)].name == pre.users@[user_index(pre.users@, u)].name
    &&& post.users@[user_index(pre.users@, u)].last_sync_id == pre.last_record().id
    &&& post.users@[user_index(pre.users@, u)].last_time == now
    &&& forall|i: int|
        0 <= i < n && (i >= cut || i == n - 1) ==> advanced_to_synced(
            pre.sync_records@[i],
            #[trigger] post.sync_records@[i],
            u,
        )
    &&& forall|i: int|
        0 <= i < n - 1 && i < cut ==> (#[trigger] post.sync_records@[i]) == pre.sync_records@[i]
    &&& ret.len() == n - cut
    &&& forall|j: int| 0 <= j < ret.len() ==> rec_eq(#[trigger] ret[j], post.sync_records@[cut + j])
    &&& rolled <==> (settled_on(pre.users@, post.sync_records@[n - 1]) && pre.last_record().id
        < u128::MAX)
    &&& !rolled ==> post.sync_records@.len() == n
    &&& rolled ==> {
        &&& post.last_record().id > pre.last_record().id
        &&& post.last_record().reports@.len() == 0
        &&& post.last_record().actions@.len() == 0
        &&& forall|x: u128| post.last_record().phase_of(x) is CREATED
    }
}

/// Law: a successful sync moves the caller's bookmark to the id of the
/// round deposited into. That id is never below the old bookmark, and
/// lies strictly above it unless the caller was already bookmarked at
/// the open round.
pub proof fn lemma_sync_bookmark_advances(
    s0: room_t,
    s1: room_t,
    s2: room_t,
    s3: room_t,
    u: u128,
    now: u64,
    ret: Seq<sync_record_t>,
    reports: Seq<event_t>,
    actions: Seq<event_t>,
)
    requires
        s0.wf(),
        has_user_id(s0.users@, u),
        deposited(s0, s1, u, reports, actions),
        marked_syncing(s1, s2, u),
        finalized(s2, s3, u, now, ret),
    ensures
        s3.users@[user_index(s0.users@, u)].last_sync_id == s0.last_record().id,
        s3.users@[user_index(s0.users@, u)].last_sync_id >= s0.users@[user_index(
            s0.users@,
            u,
        )].last_sync_id,
        s0.users@[user_index(s0.users@, u)].last_sync_id != s0.last_record().id
            ==> s3.users@[user_index(s0.users@, u)].last_sync_id > s0.users@[user_index(
            s0.users@,
            u,
        )].last_sync_id,
{
    lemma_user_index(s0.users@, u);
    let idx = user_index(s0.users@, u);
    assert(s2.users@ == s0.users@);
    assert(user_index(s2.users@, u) == idx);
    assert(s2.last_record().id == s0.last_record().id);
    assert(s3.users@[idx].last_sync_id == s2.last_record().id);
    assert(s0.users@[idx].last_sync_id <= s0.last_record().id);
}

/// Law: across two back-to-back successful syncs by the same user, the
/// returned round id — the user's bookmark — strictly increases.
pub proof fn lemma_sync_ids_strictly_increase(
    s0: room_t,
    s1: room_t,
    s2: room_t,
    s3: room_t,
    t1: room_t,
    t2: room_t,
    t3: room_t,
    u: u128,
    now1: u64,
    now2: u64,
    ret1: Seq<sync_record_t>,
    ret2: Seq<sync_record_t>,
    reports1: Seq<event_t>,
    actions1: Seq<event_t>,
    reports2: Seq<event_t>,
    actions2: Seq<event_t>,
)
    requires
        s0.wf(),
        s3.wf(),
        has_user_id(s0.users@, u),
        deposited(s0, s1, u, reports1, actions1),
        marked_syncing(s1, s2, u),
        finalized(s2, s3, u, now1, ret1),
        s3.phase_in_last(u) is CREATED,
        deposited(s3, t1, u, reports2, actions2),
        marked_syncing(t1, t2, u),
        finalized(t2, t3, u, now2, ret2),
    ensures
        t3.users@[user_index(s3.users@, u)].last_sync_id > s3.users@[user_index(
            s0.users@,
            u,
        )].last_sync_id,
{
    lemma_user_index(s0.users@, u);
    let idx = user_index(s0.users@, u);
    assert(s2.users@ == s0.users@);
    let n = s2.sync_records@.len() as int;
    assert(s3.users@[idx].id == u);
    assert(forall|i: int|
        0 <= i < s3.users@.len() ==> (#[trigger] s3.users@[i]).id == s0.users@[i].id);
    assert(unique_user_ids(s3.users@)) by {
        assert forall|i: int, j: int|
            0 <= i < j < s3.users@.len() implies (#[trigger] s3.users@[i]).id != (
            #[trigger] s3.users@[j]).id by {
            assert(s0.users@[i].id != s0.users@[j].id);
        }
    }
    assert(has_user_id(s3.users@, u));
    lemma_user_index(s3.users@, u);
    assert(user_index(s3.users@, u) == idx);
    let b1 = s3.users@[idx].last_sync_id;
    assert(b1 == s2.last_record().id);
    if s3.sync_records@.len() == n {
        // the round did not roll over: the caller stands at SYNCED on
        // the open record, so a second sync could not have been accepted
        assert(advanced_to_synced(s2.sync_records@[n - 1], s3.sync_records@[n - 1], u));
        assert(s3.phase_in_last(u).as_int() >= 3);
        assert(false);
    } else {
        assert(s3.last_record().id > s2.last_record().id);
        assert(t2.users@ == s3.users@);
        assert(user_index(t2.users@, u) == idx);
        assert(t2.last_record().id == s3.last_record().id);
        assert(t3.users@[idx].last_sync_id == t2.last_record().id);
    }
}

/// Whether some listed user has consumed the record.
fn is_consumed(rec: &sync_record_t, users: &Vec<user_t>) -> (b: bool)
    requires
        unique_users(rec.users_phase@),
    ensures
        b == record_consumed(*rec, users@),
{
    let mut i: usize = 0;
    while i < users.len()
        invariant
            0 <= i <= users@.len(),
            forall|j: int|
                0 <= j < i ==> rec.phase_of((#[trigger] users@[j]).id).as_int() < 3,
            unique_users(rec.users_phase@),
        decreases users@.len() - i,
    {
        if rec.peek_phase(users[i].id).num() >= 3 {
            return true;
        }
        i = i + 1;
    }
    false
}

/// A filtered member list holds only members of the original, and ids
/// stay pairwise distinct.
proof fn lemma_filter_from(s: Seq<user_t>, pred: spec_fn(user_t) -> bool)
    ensures
        forall|i: int| 0 <= i < s.filter(pred).len() ==> s.contains(#[trigger] s.filter(pred)[i]),
        unique_user_ids(s) ==> unique_user_ids(s.filter(pred)),
    decreases s.len(),
{
    reveal(Seq::filter);
    if s.len() > 0 {
        lemma_filter_from(s.drop_last(), pred);
        let f = s.filter(pred);
        let g = s.drop_last().filter(pred);
        assert forall|i: int| 0 <= i < f.len() implies s.contains(#[trigger] f[i]) by {
            if pred(s.last()) && i == f.len() - 1 {
                assert(s[s.len() - 1] == f[i]);
            } else {
                assert(f[i] == g[i]);
                assert(s.drop_last().contains(g[i]));
                let j = choose|j: int| 0 <= j < s.drop_last().len() && s.drop_last()[j] == g[i];
                assert(s[j] == f[i]);
            }
        }
        if unique_user_ids(s) {
            assert(unique_user_ids(s.drop_last()));
            assert forall|i: int, j: int|
                0 <= i < j < f.len() implies (#[trigger] f[i]).id != (#[trigger] f[j]).id by {
                if pred(s.last()) && j == f.len() - 1 {
                    assert(f[i] == g[i]);
                    assert(s.drop_last().contains(g[i]));
                    let k = choose|k: int|
                        0 <= k < s.drop_last().len() && s.drop_last()[k] == g[i];
                    assert(s[k] == f[i]);
                    assert(s[k].id != s.last().id);
                } else {
                    assert(f[i] == g[i] && f[j] == g[j]);
                }
            }
        }
    }
}

} // verus!
