//! Session registry: opaque bearer tokens that authenticate a
//! (room, user) pair. A session is live while its room exists and still
//! holds its user; the janitor removes the rest.

use vstd::prelude::*;
use vstd::set_lib::{lemma_int_range, lemma_len_subset, lemma_map_size_bound, set_int_range};
use crate::AgError;
use crate::is_unauthorized;
use crate::outside::fresh_id;
use crate::room::{has_user_id, room_t};
use crate::room_list::{has_room_id, room_index, room_list_t};

verus! {

/// An immutable (session id, room id, user id) triple.
#[derive(Clone, Copy, PartialEq, Eq, Structural, Debug)]
pub struct session_t {
    pub id: u128,
    pub room_id: u128,
    pub user_id: u128,
}

impl session_t {
    /// A session for the pair with a freshly generated id.
    pub fn new(room_id: u128, user_id: u128) -> (r: Self)
        ensures
            r.room_id == room_id,
            r.user_id == user_id,
            0 < r.id < u128::MAX,
    {
        session_t { id: fresh_id(), room_id, user_id }
    }
}

/// `s` holds a session with this id.
pub open spec fn has_session_id(s: Seq<session_t>, id: u128) -> bool {
    exists|i: int| 0 <= i < s.len() && s[i].id == id
}

/// The index of the session with this id.
pub open spec fn session_index(s: Seq<session_t>, id: u128) -> int {
    choose|i: int| 0 <= i < s.len() && s[i].id == id
}

/// Session ids are pairwise distinct.
pub open spec fn unique_session_ids(s: Seq<session_t>) -> bool {
    forall|i: int, j: int|
        0 <= i < j < s.len() ==> (#[trigger] s[i]).id != (#[trigger] s[j]).id
}

/// The session's room exists and still holds the session's user.
pub open spec fn session_live(s: session_t, rooms: Seq<room_t>) -> bool {
    has_room_id(rooms, s.room_id) && has_user_id(
        rooms[room_index(rooms, s.room_id)].users@,
        s.user_id,
    )
}

/// Fewer than `s.len() + 2` values can cover `s`'s ids: some id in
/// `1 ..= s.len() + 1` is free, and here is one.
proof fn lemma_free_session_id(s: Seq<session_t>) -> (v: u128)
    requires
        s.len() + 2 < u128::MAX,
    ensures
        1 <= v <= s.len() + 1,
        forall|i: int| 0 <= i < s.len() ==> (#[trigger] s[i]).id != v,
{
    if forall|v0: u128| 1 <= v0 <= s.len() + 1 ==> #[trigger] has_session_id(s, v0) {
        let n = s.len() as int;
        let dom = set_int_range(0, n);
        let f = |i: int| s[i].id as int;
        let taken = dom.map(f);
        lemma_int_range(0, n);
        lemma_map_size_bound(dom, taken, f);
        let cands = set_int_range(1, n + 2);
        lemma_int_range(1, n + 2);
        assert forall|v0: int| cands.contains(v0) implies taken.contains(v0) by {
            let vv = v0 as u128;
            assert(1 <= v0 < s.len() + 2);
            assert(vv as int == v0);
            assert(1 <= vv <= s.len() + 1);
            assert(has_session_id(s, vv));
            let i = choose|i: int| 0 <= i < s.len() && s[i].id == vv;
            assert(dom.contains(i));
            assert(s[i].id == vv);
            assert(s[i].id as int == v0);
            assert(f(i) == v0);
        }
        lemma_len_subset(cands, taken);
        1
    } else {
        let v0 = choose|v0: u128| !(1 <= v0 <= s.len() + 1 ==> has_session_id(s, v0));
        assert(1 <= v0 <= s.len() + 1 && !has_session_id(s, v0));
        assert forall|i: int| 0 <= i < s.len() implies (#[trigger] s[i]).id != v0 by {
            if s[i].id == v0 {
                assert(has_session_id(s, v0));
            }
        }
        v0
    }
}

/// Process-wide map from session token to (room id, user id).
pub struct session_list_t {
    pub sessions: Vec<session_t>,
}

impl session_list_t {
    /// Structural invariant of the registry.
    pub open spec fn wf(self) -> bool {
        unique_session_ids(self.sessions@)
    }

    /// An empty registry.
    pub fn new() -> (r: Self)
        ensures
            r.wf(),
            r.sessions@.len() == 0,
    {
        session_list_t { sessions: Vec::new() }
    }

    fn find_session(&self, id: u128) -> (r: Option<usize>)
        ensures
            match r {
                Some(i) => i < self.sessions@.len() && self.sessions@[i as int].id == id,
                None => !has_session_id(self.sessions@, id),
            },
    {
        let mut i: usize = 0;
        while i < self.sessions.len()
            invariant
                0 <= i <= self.sessions@.len(),
                forall|j: int| 0 <= j < i ==> (#[trigger] self.sessions@[j]).id != id,
            decreases self.sessions@.len() - i,
        {
            if self.sessions[i].id == id {
                return Some(i);
            }
            i = i + 1;
        }
        None
    }

    fn fresh_session_id(&self) -> (id: u128)
        ensures
            !has_session_id(self.sessions@, id),
            id > 0,
    {
        let c = fresh_id();
        if self.find_session(c).is_none() {
            return c;
        }
        let n = self.sessions.len();
        let mut k: usize = 0;
        while k < n
            invariant
                0 <= k <= n,
                n == self.sessions@.len(),
                forall|k2: int|
                    0 <= k2 < k ==> #[trigger] has_session_id(self.sessions@, (k2 + 1) as u128),
            decreases n - k,
        {
            let cand: u128 = (k as u128) + 1;
            if self.find_session(cand).is_none() {
                return cand;
            }
            k = k + 1;
        }
        let cand: u128 = (n as u128) + 1;
        match self.find_session(cand) {
            None => cand,
            Some(w) => {
                proof {
                    assert(self.sessions@[w as int].id == cand);
                    let v = lemma_free_session_id(self.sessions@);
                    if v <= n as u128 {
                        let k2 = (v as int) - 1;
                        assert(has_session_id(self.sessions@, (k2 + 1) as u128));
                        let i = choose|i: int|
                            0 <= i < self.sessions@.len() && self.sessions@[i].id == ((k2
                                + 1) as u128);
                        assert((k2 + 1) as u128 == v);
                        assert(self.sessions@[i].id == v);
                    } else {
                        assert(v == cand);
                        assert(self.sessions@[w as int].id != v);
                    }
                }
                // unreachable: the proof above found a free candidate
                1
            },
        }
    }

    /// Mint a session for the pair and register it.
    pub fn create(&mut self, room_id: u128, user_id: u128) -> (s: session_t)
        requires
            old(self).wf(),
        ensures
            final(self).wf(),
            s.room_id == room_id,
            s.user_id == user_id,
            s.id > 0,
            !has_session_id(old(self).sessions@, s.id),
            final(self).sessions@ == old(self).sessions@.push(s),
    {
        let id = self.fresh_session_id();
        let s = session_t { id, room_id, user_id };
        self.sessions.push(s);
        proof {
            let f = final(self).sessions@;
            assert forall|i: int, j: int|
                0 <= i < j < f.len() implies (#[trigger] f[i]).id != (#[trigger] f[j]).id by {
                if j == f.len() - 1 {
                    assert(old(self).sessions@[i].id != s.id);
                }
            }
        }
        s
    }

    /// Look up a session; *unauthorized* on a miss, for sessions are
    /// credentials.
    pub fn get(&self, id: u128) -> (r: Result<session_t, AgError>)
        requires
            self.wf(),
        ensures
            match r {
                Ok(s) => has_session_id(self.sessions@, id) && s == self.sessions@[session_index(
                    self.sessions@,
                    id,
                )] && s.id == id,
                Err(e) => !has_session_id(self.sessions@, id) && is_unauthorized(
                    e,
                    "Session not found."@,
                ),
            },
    {
        match self.find_session(id) {
            Some(i) => {
                proof {
                    let k = session_index(self.sessions@, id);
                    assert(0 <= k < self.sessions@.len() && self.sessions@[k].id == id);
                    assert(k == i as int);
                }
                Ok(self.sessions[i])
            },
            None => Err(AgError::unauthorized_error("Session not found.")),
        }
    }

    /// Whether a session with this id is present.
    pub fn exists_session(&self, id: u128) -> (r: bool)
        ensures
            r == has_session_id(self.sessions@, id),
    {
        self.find_session(id).is_some()
    }

    /// Remove the session with this id; whether one was present.
    pub fn remove(&mut self, id: u128) -> (r: bool)
        requires
            old(self).wf(),
        ensures
            final(self).wf(),
            r == has_session_id(old(self).sessions@, id),
            r ==> final(self).sessions@ == old(self).sessions@.remove(
                session_index(old(self).sessions@, id),
            ),
            !r ==> final(self).sessions@ == old(self).sessions@,
    {
        match self.find_session(id) {
            Some(i) => {
                proof {
                    let k = session_index(old(self).sessions@, id);
                    assert(0 <= k < old(self).sessions@.len() && old(self).sessions@[k].id == id);
                    assert(k == i as int);
                }
                let _ = self.sessions.remove(i);
                proof {
                    let f = final(self).sessions@;
                    let o = old(self).sessions@;
                    assert forall|a: int, b: int|
                        0 <= a < b < f.len() implies (#[trigger] f[a]).id != (#[trigger] f[b]).id by {
                        let oa: int = if a < i as int {
                            a
                        } else {
                            a + 1
                        };
                        let ob: int = if b < i as int {
                            b
                        } else {
                            b + 1
                        };
                        assert(f[a] == o[oa] && f[b] == o[ob]);
                    }
                }
                true
            },
            None => false,
        }
    }

    /// Drop every session whose room is gone or whose user has left the
    /// room; the number dropped. This is the janitor's predicate, which
    /// keeps session membership consistent with room membership.
    pub fn clean(&mut self, rooms: &room_list_t) -> (r: usize)
        requires
            old(self).wf(),
            rooms.wf(),
        ensures
            final(self).wf(),
            final(self).sessions@ == old(self).sessions@.filter(
                |s: session_t| session_live(s, rooms.rooms@),
            ),
            r == old(self).sessions@.len() - final(self).sessions@.len(),
    {
        let ghost pred = |s: session_t| session_live(s, rooms.rooms@);
        let mut kept: Vec<session_t> = Vec::new();
        let mut i: usize = 0;
        while i < self.sessions.len()
            invariant
                0 <= i <= self.sessions@.len(),
                kept@ == self.sessions@.take(i as int).filter(pred),
                pred == (|s: session_t| session_live(s, rooms.rooms@)),
                rooms.wf(),
            decreases self.sessions@.len() - i,
        {
            proof {
                reveal(Seq::filter);
                assert(self.sessions@.take(i as int + 1).drop_last() =~= self.sessions@.take(
                    i as int,
                ));
            }
            let s = self.sessions[i];
            let live = match rooms.get_by_id(s.room_id) {
                Ok(room) => room.has_user(s.user_id),
                Err(_) => false,
            };
            if live {
                kept.push(s);
            }
            proof {
                if live {
                    assert(session_live(s, rooms.rooms@));
                } else {
                    assert(!session_live(s, rooms.rooms@));
                }
            }
            i = i + 1;
        }
        proof {
            assert(self.sessions@.take(self.sessions@.len() as int) =~= self.sessions@);
            self.sessions@.lemma_filter_len(pred);
        }
        let removed = self.sessions.len() - kept.len();
        self.sessions = kept;
        proof {
            lemma_filter_sessions(old(self).sessions@, pred);
        }
        removed
    }
}

/// A filtered session list keeps ids pairwise distinct.
proof fn lemma_filter_sessions(s: Seq<session_t>, pred: spec_fn(session_t) -> bool)
    ensures
        unique_session_ids(s) ==> unique_session_ids(s.filter(pred)),
    decreases s.len(),
{
    reveal(Seq::filter);
    if s.len() > 0 {
        lemma_filter_sessions(s.drop_last(), pred);
        let f = s.filter(pred);
        let g = s.drop_last().filter(pred);
        if unique_session_ids(s) {
            assert(unique_session_ids(s.drop_last()));
            assert forall|i: int, j: int|
                0 <= i < j < f.len() implies (#[trigger] f[i]).id != (#[trigger] f[j]).id by {
                if pred(s.last()) && j == f.len() - 1 {
                    assert(f[i] == g[i]);
                    lemma_filter_sessions_member(s.drop_last(), pred, i);
                    let k = choose|k: int|
                        0 <= k < s.drop_last().len() && s.drop_last()[k] == g[i];
                    assert(s[k] == f[i]);
                    assert(s[k].id != s.last().id);
                } else {
                    assert(f[i] == g[i] && f[j] == g[j]);
                }
            }
        }
    }
}

/// Each filtered session is one of the originals.
proof fn lemma_filter_sessions_member(s: Seq<session_t>, pred: spec_fn(session_t) -> bool, i: int)
    requires
        0 <= i < s.filter(pred).len(),
    ensures
        s.contains(s.filter(pred)[i]),
    decreases s.len(),
{
    reveal(Seq::filter);
    if s.len() > 0 {
        let f = s.filter(pred);
        let g = s.drop_last().filter(pred);
        if pred(s.last()) && i == f.len() - 1 {
            assert(s[s.len() - 1] == f[i]);
        } else {
            assert(f[i] == g[i]);
            lemma_filter_sessions_member(s.drop_last(), pred, i);
            let j = choose|j: int| 0 <= j < s.drop_last().len() && s.drop_last()[j] == g[i];
            assert(s[j] == f[i]);
        }
    }
}

} // verus!
