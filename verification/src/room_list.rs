//! Process-wide room registry: rooms indexed by id and by their
//! six-digit name, a capacity limit enforced on creation, and the
//! periodic sweep that drops expired rooms and stale members.

use vstd::prelude::*;
use vstd::arithmetic::div_mod::{lemma_mod_multiples_vanish, lemma_small_mod};
use vstd::relations::injective_on;
use vstd::set_lib::{
    lemma_int_range, lemma_len_subset, lemma_map_size, lemma_map_size_bound, set_int_range,
};
use crate::AgError;
use crate::{is_bad_request, is_forbidden, is_not_found};
use crate::numbers::{
    format_name, is_name_seq, lemma_digits_injective, lemma_p10_6, name_seq, str_eq,
};
use crate::outside::{draw_name_number, fresh_id};
use crate::room::{cleaned, room_t, user_t};

verus! {

/// `s` holds a room with this id.
pub open spec fn has_room_id(s: Seq<room_t>, id: u128) -> bool {
    exists|i: int| 0 <= i < s.len() && s[i].id == id
}

/// The index of the room with this id.
pub open spec fn room_index(s: Seq<room_t>, id: u128) -> int {
    choose|i: int| 0 <= i < s.len() && s[i].id == id
}

/// `s` holds a room with this name.
pub open spec fn has_room_name(s: Seq<room_t>, name: Seq<char>) -> bool {
    exists|i: int| 0 <= i < s.len() && s[i].name@ == name
}

/// The index of the room with this name.
pub open spec fn room_name_index(s: Seq<room_t>, name: Seq<char>) -> int {
    choose|i: int| 0 <= i < s.len() && s[i].name@ == name
}

/// Some room already bears the six-digit name of `n`.
pub open spec fn name_taken(s: Seq<room_t>, n: int) -> bool {
    has_room_name(s, name_seq(n))
}

/// Room ids are pairwise distinct.
pub open spec fn unique_room_ids(s: Seq<room_t>) -> bool {
    forall|i: int, j: int|
        0 <= i < j < s.len() ==> (#[trigger] s[i]).id != (#[trigger] s[j]).id
}

/// Room names are pairwise distinct.
pub open spec fn unique_room_names(s: Seq<room_t>) -> bool {
    forall|i: int, j: int|
        0 <= i < j < s.len() ==> (#[trigger] s[i]).name@ != (#[trigger] s[j]).name@
}

/// The room is worth keeping: not expired, and still peopled.
pub open spec fn room_available(a: room_t, now: u64) -> bool {
    now <= a.expire_time && if a.in_lobby {
        a.users@.len() >= 1
    } else {
        a.users@.len() >= 2
    }
}

/// One sweep of a kept room: stale members kicked, then consumed
/// records dropped against the remaining members.
pub open spec fn room_swept(a: room_t, b: room_t, user_timeout: u64, now: u64) -> bool {
    &&& b.same_shell(a)
    &&& b.users@ == a.users@.filter(|u: user_t| u.last_time + user_timeout >= now)
    &&& b.sync_records@ == cleaned(a.sync_records@, b.users@)
}

/// If every one of the million names is taken, there are at least a
/// million rooms: the rejection probe cannot run out of names before
/// the registry does.
proof fn lemma_all_names_taken(rooms: Seq<room_t>)
    requires
        forall|i: int| 0 <= i < rooms.len() ==> is_name_seq((#[trigger] rooms[i]).name@),
        forall|n: int| 0 <= n < 1000000 ==> name_taken(rooms, n),
    ensures
        rooms.len() >= 1000000,
{
    let n = rooms.len() as int;
    let f = |v: int| choose|i: int| 0 <= i < rooms.len() && rooms[i].name@ == name_seq(v);
    let cands = set_int_range(0, 1000000);
    lemma_int_range(0, 1000000);
    assert forall|v: int| cands.contains(v) implies 0 <= f(v) < n && rooms[f(v)].name@
        == name_seq(v) by {
        assert(name_taken(rooms, v));
        let i = choose|i: int| 0 <= i < rooms.len() && rooms[i].name@ == name_seq(v);
        assert(rooms[i].name@ == name_seq(v));
    }
    assert(injective_on(f, cands)) by {
        assert forall|v1: int, v2: int|
            #![trigger f(v1), f(v2)]
            cands.contains(v1) && cands.contains(v2) && f(v1) == f(v2) implies v1 == v2 by {
            assert(rooms[f(v1)].name@ == name_seq(v1));
            assert(rooms[f(v2)].name@ == name_seq(v2));
            lemma_p10_6();
            lemma_digits_injective(v1, v2, 6);
        }
    }
    let image = cands.map(f);
    lemma_map_size(cands, image, f);
    assert(image.subset_of(set_int_range(0, n))) by {
        assert forall|y: int| image.contains(y) implies set_int_range(0, n).contains(y) by {
            let v = choose|v: int| cands.contains(v) && y == f(v);
            assert(0 <= f(v) < n);
        }
    }
    lemma_int_range(0, n);
    lemma_len_subset(image, set_int_range(0, n));
}

/// Fewer than `s.len() + 2` values can cover `s`'s ids: some id in
/// `1 ..= s.len() + 1` is free, and here is one.
proof fn lemma_free_room_id(s: Seq<room_t>) -> (v: u128)
    requires
        s.len() + 2 < u128::MAX,
    ensures
        1 <= v <= s.len() + 1,
        forall|i: int| 0 <= i < s.len() ==> (#[trigger] s[i]).id != v,
{
    if forall|v0: u128| 1 <= v0 <= s.len() + 1 ==> #[trigger] has_room_id(s, v0) {
        let n = s.len() as int;
        let dom = set_int_range(0, n);
        let f = |i: int| s[i].id as int;
        let taken = dom.map(f);
        lemma_int_range(0, n);
        lemma_map_size_bound(dom, taken, f);
        let cands = set_int_range(1, n + 2);
        lemma_int_range(1, n + 2);
        assert forall|v0: int| cands.contains(v0) implies taken.contains(v0) by {
            let vv = v0 as u128;
            assert(1 <= v0 < s.len() + 2);
            assert(vv as int == v0);
            assert(1 <= vv <= s.len() + 1);
            assert(has_room_id(s, vv));
            let i = choose|i: int| 0 <= i < s.len() && s[i].id == vv;
            assert(dom.contains(i));
            assert(s[i].id == vv);
            assert(s[i].id as int == v0);
            assert(f(i) == v0);
        }
        lemma_len_subset(cands, taken);
        1
    } else {
        let v0 = choose|v0: u128| !(1 <= v0 <= s.len() + 1 ==> has_room_id(s, v0));
        assert(1 <= v0 <= s.len() + 1 && !has_room_id(s, v0));
        assert forall|i: int| 0 <= i < s.len() implies (#[trigger] s[i]).id != v0 by {
            if s[i].id == v0 {
                assert(has_room_id(s, v0));
            }
        }
        v0
    }
}

/// Each filtered room is one of the originals.
proof fn lemma_filter_rooms_member(s: Seq<room_t>, pred: spec_fn(room_t) -> bool, i: int)
    requires
        0 <= i < s.filter(pred).len(),
    ensures
        exists|j: int| 0 <= j < s.len() && s[j] == s.filter(pred)[i],
    decreases s.len(),
{
    reveal(Seq::filter);
    if s.len() > 0 {
        let f = s.filter(pred);
        let g = s.drop_last().filter(pred);
        if pred(s.last()) && i == f.len() - 1 {
            assert(s[s.len() - 1] == f[i]);
        } else {
            assert(f[i] == g[i]);
            lemma_filter_rooms_member(s.drop_last(), pred, i);
            let j = choose|j: int| 0 <= j < s.drop_last().len() && s.drop_last()[j] == g[i];
            assert(s[j] == f[i]);
        }
    }
}

/// A filtered room list keeps ids and names pairwise distinct.
proof fn lemma_filter_rooms(s: Seq<room_t>, pred: spec_fn(room_t) -> bool)
    requires
        unique_room_ids(s),
        unique_room_names(s),
    ensures
        unique_room_ids(s.filter(pred)),
        unique_room_names(s.filter(pred)),
    decreases s.len(),
{
    reveal(Seq::filter);
    if s.len() > 0 {
        assert(unique_room_ids(s.drop_last()) && unique_room_names(s.drop_last()));
        lemma_filter_rooms(s.drop_last(), pred);
        let f = s.filter(pred);
        let g = s.drop_last().filter(pred);
        assert forall|i: int, j: int|
            0 <= i < j < f.len() implies (#[trigger] f[i]).id != (#[trigger] f[j]).id && (
        f[i]).name@ != (f[j]).name@ by {
            if pred(s.last()) && j == f.len() - 1 {
                assert(f[i] == g[i]);
                lemma_filter_rooms_member(s.drop_last(), pred, i);
                let k = choose|k: int| 0 <= k < s.drop_last().len() && s.drop_last()[k] == g[i];
                assert(s[k] == f[i]);
                assert(s[k].id != s.last().id);
                assert(s[k].name@ != s.last().name@);
            } else {
                assert(f[i] == g[i] && f[j] == g[j]);
            }
        }
    }
}

/// Law: the registry's two indexes round-trip. A room found under a
/// name is the room its id resolves to, and a room found under an id is
/// the room its name resolves to.
pub proof fn lemma_registry_round_trip(s: Seq<room_t>, id: u128, name: Seq<char>)
    requires
        unique_room_ids(s),
        unique_room_names(s),
    ensures
        has_room_name(s, name) ==> {
            let i = room_name_index(s, name);
            &&& 0 <= i < s.len()
            &&& s[i].name@ == name
            &&& has_room_id(s, s[i].id)
            &&& room_index(s, s[i].id) == i
        },
        has_room_id(s, id) ==> {
            let i = room_index(s, id);
            &&& 0 <= i < s.len()
            &&& s[i].id == id
            &&& has_room_name(s, s[i].name@)
            &&& room_name_index(s, s[i].name@) == i
        },
{
    if has_room_name(s, name) {
        let i = room_name_index(s, name);
        assert(0 <= i < s.len() && s[i].name@ == name);
        assert(has_room_id(s, s[i].id));
        let j = room_index(s, s[i].id);
        assert(0 <= j < s.len() && s[j].id == s[i].id);
        if i != j {
            assert(s[i].id != s[j].id);
        }
    }
    if has_room_id(s, id) {
        let i = room_index(s, id);
        assert(0 <= i < s.len() && s[i].id == id);
        assert(has_room_name(s, s[i].name@));
        let j = room_name_index(s, s[i].name@);
        assert(0 <= j < s.len() && s[j].name@ == s[i].name@);
        if i != j {
            assert(s[i].name@ != s[j].name@);
        }
    }
}

/// Law: the number of rooms never exceeds the configured limit.
pub proof fn lemma_room_count_within_limit(s: room_list_t)
    requires
        s.wf(),
    ensures
        s.rooms@.len() <= s.limit,
{
}


/// The registry: rooms indexed by id and by unique six-digit name, at
/// most `limit` (and fewer than a million) at a time. Lifetimes are
/// handed to every room it creates.
pub struct room_list_t {
    pub limit: usize,
    pub lobby_lifetime: u64,
    pub game_lifetime: u64,
    pub rooms: Vec<room_t>,
}

impl room_list_t {
    /// Structural invariant of the registry.
    pub open spec fn wf(self) -> bool {
        &&& forall|i: int| 0 <= i < self.rooms@.len() ==> (#[trigger] self.rooms@[i]).wf()
        &&& forall|i: int| 0 <= i < self.rooms@.len() ==> is_name_seq(
            (#[trigger] self.rooms@[i]).name@,
        )
        &&& unique_room_ids(self.rooms@)
        &&& unique_room_names(self.rooms@)
        &&& self.rooms@.len() <= self.limit
    }

    /// An empty registry with the given capacity and lifetimes.
    pub fn new(limit: usize, lobby_lifetime: u64, game_lifetime: u64) -> (r: Self)
        ensures
            r.wf(),
            r.limit == limit,
            r.lobby_lifetime == lobby_lifetime,
            r.game_lifetime == game_lifetime,
            r.rooms@.len() == 0,
    {
        room_list_t { limit, lobby_lifetime, game_lifetime, rooms: Vec::new() }
    }

    fn find_room(&self, id: u128) -> (r: Option<usize>)
        ensures
            match r {
                Some(i) => i < self.rooms@.len() && self.rooms@[i as int].id == id,
                None => !has_room_id(self.rooms@, id),
            },
    {
        let mut i: usize = 0;
        while i < self.rooms.len()
            invariant
                0 <= i <= self.rooms@.len(),
                forall|j: int| 0 <= j < i ==> (#[trigger] self.rooms@[j]).id != id,
            decreases self.rooms@.len() - i,
        {
            if self.rooms[i].id == id {
                return Some(i);
            }
            i = i + 1;
        }
        None
    }

    fn find_room_by_name(&self, name: &str) -> (r: Option<usize>)
        ensures
            match r {
                Some(i) => i < self.rooms@.len() && self.rooms@[i as int].name@ == name@,
                None => !has_room_name(self.rooms@, name@),
            },
    {
        let mut i: usize = 0;
        while i < self.rooms.len()
            invariant
                0 <= i <= self.rooms@.len(),
                forall|j: int| 0 <= j < i ==> (#[trigger] self.rooms@[j]).name@ != name@,
            decreases self.rooms@.len() - i,
        {
            if str_eq(self.rooms[i].name.as_str(), name) {
                return Some(i);
            }
            i = i + 1;
        }
        None
    }

    fn name_number_taken(&self, num: u64) -> (b: bool)
        requires
            num < 1000000,
        ensures
            b == name_taken(self.rooms@, num as int),
    {
        let name = format_name(num);
        self.find_room_by_name(name.as_str()).is_some()
    }

    /// Probe for a name number nobody bears, starting at `start` and
    /// wrapping around the million possible names. Terminates, and
    /// succeeds whenever fewer than a million rooms exist.
    fn pick_free_number(&self, start: u64) -> (num: u64)
        requires
            start < 1000000,
            self.rooms@.len() < 1000000,
            forall|i: int| 0 <= i < self.rooms@.len() ==> is_name_seq(
                (#[trigger] self.rooms@[i]).name@,
            ),
        ensures
            num < 1000000,
            !name_taken(self.rooms@, num as int),
    {
        let mut k: u64 = 0;
        while k < 1000000
            invariant
                0 <= k <= 1000000,
                start < 1000000,
                self.rooms@.len() < 1000000,
                forall|i: int| 0 <= i < self.rooms@.len() ==> is_name_seq(
                    (#[trigger] self.rooms@[i]).name@,
                ),
                forall|k2: int|
                    0 <= k2 < k ==> #[trigger] name_taken(self.rooms@, (start + k2) % 1000000),
            decreases 1000000 - k,
        {
            let cand = (start + k) % 1000000;
            if !self.name_number_taken(cand) {
                return cand;
            }
            k = k + 1;
        }
        proof {
            assert forall|m: int| 0 <= m < 1000000 implies name_taken(self.rooms@, m) by {
                let k2: int = if m >= start {
                    m - start
                } else {
                    m + 1000000 - start
                };
                assert(0 <= k2 < 1000000);
                if m >= start {
                    assert(start + k2 == m);
                    lemma_small_mod(m as nat, 1000000);
                } else {
                    assert(start + k2 == m + 1000000);
                    lemma_mod_multiples_vanish(1, m, 1000000);
                    lemma_small_mod(m as nat, 1000000);
                }
                assert((start + k2) % 1000000 == m);
            }
            lemma_all_names_taken(self.rooms@);
            assert(false);
        }
        // unreachable: fewer than a million rooms cannot take every name
        0
    }

    fn fresh_room_id(&self) -> (id: u128)
        ensures
            !has_room_id(self.rooms@, id),
            id > 0,
    {
        let c = fresh_id();
        if self.find_room(c).is_none() {
            return c;
        }
        let n = self.rooms.len();
        let mut k: usize = 0;
        while k < n
            invariant
                0 <= k <= n,
                n == self.rooms@.len(),
                forall|k2: int|
                    0 <= k2 < k ==> #[trigger] has_room_id(self.rooms@, (k2 + 1) as u128),
            decreases n - k,
        {
            let cand: u128 = (k as u128) + 1;
            if self.find_room(cand).is_none() {
                return cand;
            }
            k = k + 1;
        }
        let cand: u128 = (n as u128) + 1;
        match self.find_room(cand) {
            None => cand,
            Some(w) => {
                proof {
                    assert(self.rooms@[w as int].id == cand);
                    let v = lemma_free_room_id(self.rooms@);
                    if v <= n as u128 {
                        let k2 = (v as int) - 1;
                        assert(has_room_id(self.rooms@, (k2 + 1) as u128));
                        let i = choose|i: int|
                            0 <= i < self.rooms@.len() && self.rooms@[i].id == ((k2
                                + 1) as u128);
                        assert((k2 + 1) as u128 == v);
                        assert(self.rooms@[i].id == v);
                    } else {
                        assert(v == cand);
                        assert(self.rooms@[w as int].id != v);
                    }
                }
                // unreachable: the proof above found a free candidate
                1
            },
        }
    }

    /// Create a room: refuse at capacity, draw a fresh six-digit name by
    /// rejection against the name index, validate, and insert the room
    /// into both indexes. Returns the new room's id and name; looking
    /// the name up yields the room just created.
    pub fn create(&mut self, version: &str, owner: user_t, size: usize, now: u64) -> (r: Result<
        (u128, String),
        AgError,
    >)
        requires
            old(self).wf(),
            owner.wf(),
            now + old(self).lobby_lifetime <= u64::MAX,
        ensures
            final(self).wf(),
            final(self).limit == old(self).limit,
            final(self).lobby_lifetime == old(self).lobby_lifetime,
            final(self).game_lifetime == old(self).game_lifetime,
            match r {
                Ok((id, name)) => {
                    &&& old(self).rooms@.len() < old(self).limit
                    &&& 1 <= version@.len() <= 32
                    &&& 2 <= size <= 4
                    &&& final(self).rooms@.len() == old(self).rooms@.len() + 1
                    &&& forall|i: int|
                        0 <= i < old(self).rooms@.len() ==> (#[trigger] final(self).rooms@[i])
                            == old(self).rooms@[i]
                    &&& {
                        let room = final(self).rooms@.last();
                        &&& room.id == id
                        &&& id > 0
                        &&& !has_room_id(old(self).rooms@, id)
                        &&& room.name@ == name@
                        &&& is_name_seq(name@)
                        &&& !has_room_name(old(self).rooms@, name@)
                        &&& room.version@ == version@
                        &&& room.size == size
                        &&& room.lobby_lifetime == old(self).lobby_lifetime
                        &&& room.game_lifetime == old(self).game_lifetime
                        &&& room.expire_time == now + old(self).lobby_lifetime
                        &&& room.in_lobby
                        &&& room.users@.len() == 1
                        &&& room.users@[0].id == owner.id
                        &&& room.users@[0].name == owner.name
                        &&& room.users@[0].last_sync_id == 0
                        &&& room.users@[0].last_time == now
                        &&& room.sync_records@.len() == 1
                    }
                    &&& has_room_name(final(self).rooms@, name@)
                    &&& room_name_index(final(self).rooms@, name@) == old(self).rooms@.len()
                    &&& has_room_id(final(self).rooms@, id)
                    &&& room_index(final(self).rooms@, id) == old(self).rooms@.len()
                },
                Err(e) => {
                    &&& final(self).rooms@ == old(self).rooms@
                    &&& if old(self).rooms@.len() >= old(self).limit || old(self).rooms@.len()
                        >= 1000000 {
                        is_forbidden(e, "Room limit reached."@)
                    } else if !(1 <= version@.len() <= 32) {
                        is_bad_request(
                            e,
                            "Invalid room version length. Must be between 1 and 32."@,
                        )
                    } else {
                        !(2 <= size <= 4) && is_bad_request(
                            e,
                            "Invalid room size. Must be between 2 and 4."@,
                        )
                    }
                },
            },
    {
        if self.rooms.len() >= self.limit || self.rooms.len() >= 1000000 {
            return Err(AgError::forbidden_error("Room limit reached."));
        }
        let start = draw_name_number();
        let num = self.pick_free_number(start);
        let name = format_name(num);
        let name_ret = name.clone();
        let room = match room_t::new(
            version.to_owned(),
            owner,
            name,
            size,
            self.lobby_lifetime,
            self.game_lifetime,
            now,
        ) {
            Ok(room) => room,
            Err(e) => {
                return Err(e);
            },
        };
        let rid = self.fresh_room_id();
        let mut room = room;
        room.id = rid;
        self.rooms.push(room);
        proof {
            let f = self.rooms@;
            let o = old(self).rooms@;
            assert(f.drop_last() =~= o);
            assert forall|i: int, j: int|
                0 <= i < j < f.len() implies (#[trigger] f[i]).id != (#[trigger] f[j]).id && (
            f[i]).name@ != (f[j]).name@ by {
                if j == f.len() - 1 {
                    assert(o[i].id != rid);
                    assert(f[j].name@ == name_seq(num as int));
                    if o[i].name@ == f[j].name@ {
                        assert(name_taken(o, num as int));
                    }
                } else {
                    assert(o[i].id != o[j].id && o[i].name@ != o[j].name@);
                }
            }
            let k = room_name_index(f, name_ret@);
            assert(f[o.len() as int].name@ == name_ret@);
            assert(0 <= k < f.len() && f[k].name@ == name_ret@);
            if k != o.len() as int {
                assert(f[k].id != f[o.len() as int].id || f[k].name@ != f[o.len() as int].name@);
            }
            let k2 = room_index(f, rid);
            assert(f[o.len() as int].id == rid);
            assert(0 <= k2 < f.len() && f[k2].id == rid);
            if k2 != o.len() as int {
                assert(f[k2].id != f[o.len() as int].id || f[k2].name@ != f[o.len() as int].name@);
            }
        }
        Ok((rid, name_ret))
    }

    /// Look up a room by id; *not-found* on a miss.
    pub fn get_by_id(&self, id: u128) -> (r: Result<&room_t, AgError>)
        requires
            self.wf(),
        ensures
            match r {
                Ok(room) => has_room_id(self.rooms@, id) && *room == self.rooms@[room_index(
                    self.rooms@,
                    id,
                )] && room.id == id,
                Err(e) => !has_room_id(self.rooms@, id) && is_not_found(e, "Room not found."@),
            },
    {
        match self.find_room(id) {
            Some(i) => {
                proof {
                    let k = room_index(self.rooms@, id);
                    assert(0 <= k < self.rooms@.len() && self.rooms@[k].id == id);
                    if k != i as int {
                        assert(self.rooms@[k].id != self.rooms@[i as int].id);
                    }
                }
                Ok(&self.rooms[i])
            },
            None => Err(AgError::not_found_error("Room not found.")),
        }
    }

    /// Look up a room by its six-digit name; *not-found* on a miss.
    pub fn get(&self, name: &str) -> (r: Result<&room_t, AgError>)
        requires
            self.wf(),
        ensures
            match r {
                Ok(room) => has_room_name(self.rooms@, name@) && *room == self.rooms@[
                    room_name_index(self.rooms@, name@)] && room.name@ == name@,
                Err(e) => !has_room_name(self.rooms@, name@) && is_not_found(
                    e,
                    "Room not found."@,
                ),
            },
    {
        match self.find_room_by_name(name) {
            Some(i) => {
                proof {
                    let k = room_name_index(self.rooms@, name@);
                    assert(0 <= k < self.rooms@.len() && self.rooms@[k].name@ == name@);
                    if k != i as int {
                        assert(self.rooms@[k].name@ != self.rooms@[i as int].name@);
                    }
                }
                Ok(&self.rooms[i])
            },
            None => Err(AgError::not_found_error("Room not found.")),
        }
    }

    /// Whether a room with this id is present.
    pub fn exists_by_id(&self, id: u128) -> (r: bool)
        ensures
            r == has_room_id(self.rooms@, id),
    {
        self.find_room(id).is_some()
    }

    /// Whether a room with this name is present.
    pub fn exists_name(&self, name: &str) -> (r: bool)
        ensures
            r == has_room_name(self.rooms@, name@),
    {
        self.find_room_by_name(name).is_some()
    }

    /// Drop the room with this id from both indexes; whether one was
    /// present.
    pub fn remove(&mut self, id: u128) -> (r: bool)
        requires
            old(self).wf(),
        ensures
            final(self).wf(),
            final(self).limit == old(self).limit,
            final(self).lobby_lifetime == old(self).lobby_lifetime,
            final(self).game_lifetime == old(self).game_lifetime,
            r == has_room_id(old(self).rooms@, id),
            r ==> final(self).rooms@ == old(self).rooms@.remove(
                room_index(old(self).rooms@, id),
            ),
            !r ==> final(self).rooms@ == old(self).rooms@,
    {
        match self.find_room(id) {
            Some(i) => {
                proof {
                    let k = room_index(old(self).rooms@, id);
                    assert(0 <= k < old(self).rooms@.len() && old(self).rooms@[k].id == id);
                    assert(k == i as int);
                }
                let _ = self.rooms.remove(i);
                proof {
                    let f = final(self).rooms@;
                    let o = old(self).rooms@;
                    assert forall|a: int, b: int|
                        0 <= a < b < f.len() implies (#[trigger] f[a]).id != (#[trigger] f[b]).id
                            && (f[a]).name@ != (f[b]).name@ by {
                        let oa: int = if a < i as int {
                            a
                        } else {
                            a + 1
                        };
                        let ob: int = if b < i as int {
                            b
                        } else {
                            b + 1
                        };
                        assert(f[a] == o[oa] && f[b] == o[ob]);
                    }
                    assert forall|a: int| 0 <= a < f.len() implies (#[trigger] f[a]).wf()
                        && is_name_seq(f[a].name@) by {
                        let oa: int = if a < i as int {
                            a
                        } else {
                            a + 1
                        };
                        assert(f[a] == o[oa]);
                    }
                }
                true
            },
            None => false,
        }
    }

    /// The number of rooms.
    pub fn count(&self) -> (r: usize)
        ensures
            r == self.rooms@.len(),
    {
        self.rooms.len()
    }

    /// The rooms themselves, in insertion order.
    pub fn get_all(&self) -> (r: &Vec<room_t>)
        ensures
            r@ == self.rooms@,
    {
        &self.rooms
    }

    /// The configured capacity.
    pub fn get_limit(&self) -> (r: usize)
        ensures
            r == self.limit,
    {
        self.limit
    }

    /// Change the capacity; it may not drop below the current count, so
    /// that the count stays within the limit at every observation.
    pub fn set_limit(&mut self, new_limit: usize)
        requires
            old(self).wf(),
            old(self).rooms@.len() <= new_limit,
        ensures
            final(self).wf(),
            final(self).limit == new_limit,
            final(self).rooms@ == old(self).rooms@,
            final(self).lobby_lifetime == old(self).lobby_lifetime,
            final(self).game_lifetime == old(self).game_lifetime,
    {
        self.limit = new_limit;
    }

    /// The janitor's sweep: drop rooms that are no longer available,
    /// and in each room kept, kick members inactive for more than
    /// `user_timeout` and drop the sync records everyone left has
    /// consumed.
    pub fn clean(&mut self, user_timeout: u64, now: u64)
        requires
            old(self).wf(),
        ensures
            final(self).wf(),
            final(self).limit == old(self).limit,
            final(self).lobby_lifetime == old(self).lobby_lifetime,
            final(self).game_lifetime == old(self).game_lifetime,
            final(self).rooms@.len() == old(self).rooms@.filter(
                |a: room_t| room_available(a, now),
            ).len(),
            forall|i: int|
                0 <= i < final(self).rooms@.len() ==> room_swept(
                    old(self).rooms@.filter(|a: room_t| room_available(a, now))[i],
                    #[trigger] final(self).rooms@[i],
                    user_timeout,
                    now,
                ),
    {
        let ghost availp = |a: room_t| room_available(a, now);
        let ghost orig = old(self).rooms@;
        let mut i: usize = 0;
        let mut j: usize = 0;
        while i < self.rooms.len()
            invariant
                0 <= i <= j <= orig.len(),
                self.rooms@.len() == i + orig.len() - j,
                forall|x: int| i <= x < self.rooms@.len() ==> (#[trigger] self.rooms@[x]) == orig[
                    x - i + j],
                i == orig.take(j as int).filter(availp).len(),
                forall|x: int|
                    0 <= x < i ==> room_swept(
                        orig.take(j as int).filter(availp)[x],
                        #[trigger] self.rooms@[x],
                        user_timeout,
                        now,
                    ),
                forall|x: int| 0 <= x < i ==> (#[trigger] self.rooms@[x]).wf(),
                availp == (|a: room_t| room_available(a, now)),
                orig == old(self).rooms@,
                old(self).wf(),
                self.limit == old(self).limit,
                self.lobby_lifetime == old(self).lobby_lifetime,
                self.game_lifetime == old(self).game_lifetime,
            decreases self.rooms@.len() - i,
        {
            proof {
                reveal(Seq::filter);
                assert(orig.take(j as int + 1).drop_last() =~= orig.take(j as int));
                assert(orig.take(j as int + 1).last() == orig[j as int]);
                assert(self.rooms@[i as int] == orig[j as int]);
                assert(orig[j as int].wf());
            }
            let avail = self.rooms[i].is_available(now);
            if avail {
                let ghost before = self.rooms@;
                let mut room = self.rooms.remove(i);
                let _ = room.kick_expired(user_timeout, now);
                let _ = room.clean_sync_records();
                self.rooms.insert(i, room);
                proof {
                    assert(self.rooms@ =~= before.update(i as int, room));
                    assert(room_swept(orig[j as int], room, user_timeout, now));
                }
                i = i + 1;
            } else {
                let _ = self.rooms.remove(i);
            }
            j = j + 1;
        }
        proof {
            assert(orig.take(orig.len() as int) =~= orig);
            let f = final(self).rooms@;
            let kept = orig.filter(availp);
            lemma_filter_rooms(orig, availp);
            orig.lemma_filter_len(availp);
            assert forall|x: int, y: int|
                0 <= x < y < f.len() implies (#[trigger] f[x]).id != (#[trigger] f[y]).id && (
            f[x]).name@ != (f[y]).name@ by {
                assert(room_swept(kept[x], f[x], user_timeout, now));
                assert(room_swept(kept[y], f[y], user_timeout, now));
                assert(kept[x].id != kept[y].id && kept[x].name@ != kept[y].name@);
            }
            assert forall|x: int| 0 <= x < f.len() implies is_name_seq(
                (#[trigger] f[x]).name@,
            ) by {
                assert(room_swept(kept[x], f[x], user_timeout, now));
                lemma_filter_rooms_member(orig, availp, x);
                let k = choose|k: int| 0 <= k < orig.len() && orig[k] == kept[x];
                assert(is_name_seq(orig[k].name@));
            }
        }
    }
}

} // verus!
