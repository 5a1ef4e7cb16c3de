//! One round of a room's synchronization log: the event bucket for the
//! round plus the per-user phase map that drives the barrier.

use vstd::prelude::*;
use vstd::pervasive::VecAdditionalExecFns;
use crate::AgError;
use crate::is_bad_request;
use crate::outside::fresh_id;

verus! {

/// Immutable record of one player contribution (report or action) within
/// a round. Equality is by `id`: a repeated id replaces the stored event.
#[derive(Debug)]
pub struct event_t {
    pub id: u128,
    pub from: u128,
    pub type_: String,
    pub data: serde_json::Value,
}

impl event_t {
    pub fn new(id: u128, from: u128, type_: String, data: serde_json::Value) -> (r: Self)
        ensures
            r.id == id,
            r.from == from,
            r.type_ == type_,
            r.data == data,
    {
        event_t { id, from, type_, data }
    }
}

impl Clone for event_t {
    fn clone(&self) -> (r: Self)
        ensures
            r == *self,
    {
        event_t {
            id: self.id,
            from: self.from,
            type_: self.type_.clone(),
            data: self.data.clone(),
        }
    }
}

/// A user's progress within a round, totally ordered:
/// `CREATED < WAITING < SYNCING < SYNCED`.
#[derive(Clone, Copy, PartialEq, Eq, Structural, Debug)]
pub enum phase_t {
    CREATED,
    WAITING,
    SYNCING,
    SYNCED,
}

impl phase_t {
    /// The rank of the phase in the total order.
    pub open spec fn as_int(self) -> int {
        match self {
            phase_t::CREATED => 0,
            phase_t::WAITING => 1,
            phase_t::SYNCING => 2,
            phase_t::SYNCED => 3,
        }
    }

    /// The rank of the phase, executable.
    pub fn num(self) -> (n: u8)
        ensures
            n == self.as_int(),
    {
        match self {
            phase_t::CREATED => 0,
            phase_t::WAITING => 1,
            phase_t::SYNCING => 2,
            phase_t::SYNCED => 3,
        }
    }
}

/// The greater of two phases.
pub open spec fn phase_max(a: phase_t, b: phase_t) -> phase_t {
    if a.as_int() >= b.as_int() {
        a
    } else {
        b
    }
}

/// One entry of a record's phase map.
#[derive(Clone, Copy, PartialEq, Eq, Structural, Debug)]
pub struct phase_entry {
    pub user: u128,
    pub phase: phase_t,
}

/// The phase of `u` in the entry sequence; `CREATED` when `u` is absent.
pub open spec fn seq_phase(s: Seq<phase_entry>, u: u128) -> phase_t
    decreases s.len(),
{
    if s.len() == 0 {
        phase_t::CREATED
    } else if s.last().user == u {
        s.last().phase
    } else {
        seq_phase(s.drop_last(), u)
    }
}

/// `u` has an entry in the phase map.
pub open spec fn has_phase_key(s: Seq<phase_entry>, u: u128) -> bool {
    exists|i: int| 0 <= i < s.len() && s[i].user == u
}

/// The greatest phase over all observed users; `CREATED` when none was.
pub open spec fn seq_max_phase(s: Seq<phase_entry>) -> phase_t
    decreases s.len(),
{
    if s.len() == 0 {
        phase_t::CREATED
    } else {
        phase_max(seq_max_phase(s.drop_last()), s.last().phase)
    }
}

/// Each user has at most one entry.
pub open spec fn unique_users(s: Seq<phase_entry>) -> bool {
    forall|i: int, j: int|
        0 <= i < j < s.len() ==> (#[trigger] s[i]).user != (#[trigger] s[j]).user
}

/// Updating the entry of `w` in place rewrites `w`'s phase and no other.
pub proof fn lemma_seq_phase_update(s: Seq<phase_entry>, k: int, e: phase_entry, u: u128)
    requires
        unique_users(s),
        0 <= k < s.len(),
        s[k].user == e.user,
    ensures
        seq_phase(s.update(k, e), u) == if u == e.user {
            e.phase
        } else {
            seq_phase(s, u)
        },
    decreases s.len(),
{
    let t = s.update(k, e);
    if k == s.len() - 1 {
        assert(t.drop_last() =~= s.drop_last());
        if u != e.user && s.last().user == u {
            assert(s[k].user == e.user);
        }
    } else {
        assert(t.drop_last() =~= s.drop_last().update(k, e));
        assert(t.last() == s.last());
        lemma_seq_phase_update(s.drop_last(), k, e, u);
    }
}

/// The contributions of one round. Reports and actions are separate maps
/// from event id to event, kept in admission order; `users_phase` is the
/// phase map of the barrier. A user appearing in no entry is implicitly
/// at `CREATED`.
#[derive(Debug)]
pub struct sync_record_t {
    pub id: u128,
    pub reports: Vec<event_t>,
    pub actions: Vec<event_t>,
    pub users_phase: Vec<phase_entry>,
}

/// `s` holds an event with this id.
pub open spec fn has_eid(s: Seq<event_t>, id: u128) -> bool {
    exists|i: int| 0 <= i < s.len() && s[i].id == id
}

/// Event ids are pairwise distinct.
pub open spec fn unique_eids(s: Seq<event_t>) -> bool {
    forall|i: int, j: int|
        0 <= i < j < s.len() ==> (#[trigger] s[i]).id != (#[trigger] s[j]).id
}

/// The index of the event with this id.
pub open spec fn eid_index(s: Seq<event_t>, id: u128) -> int {
    choose|i: int| 0 <= i < s.len() && s[i].id == id
}

/// Insert one event: a stored event with the same id is replaced in
/// place, a new id is appended.
pub open spec fn upsert_event(s: Seq<event_t>, e: event_t) -> Seq<event_t> {
    if has_eid(s, e.id) {
        s.update(eid_index(s, e.id), e)
    } else {
        s.push(e)
    }
}

/// Insert a batch of events in order, each by `upsert_event`.
pub open spec fn merge_events(base: Seq<event_t>, add: Seq<event_t>) -> Seq<event_t>
    decreases add.len(),
{
    if add.len() == 0 {
        base
    } else {
        merge_events(upsert_event(base, add.first()), add.drop_first())
    }
}

/// All events in `evs` originate from `from`.
pub open spec fn all_from(evs: Seq<event_t>, from: u128) -> bool {
    forall|i: int| 0 <= i < evs.len() ==> (#[trigger] evs[i]).from == from
}

/// With distinct ids, the chosen index is the only index of its id.
pub proof fn lemma_eid_index(s: Seq<event_t>, id: u128)
    requires
        unique_eids(s),
        has_eid(s, id),
    ensures
        0 <= eid_index(s, id) < s.len(),
        s[eid_index(s, id)].id == id,
        forall|i: int| 0 <= i < s.len() && s[i].id == id ==> i == eid_index(s, id),
{
    let k = eid_index(s, id);
    assert(0 <= k < s.len() && s[k].id == id);
}

/// What one insertion does: ids gain `e.id`, distinctness is kept, every
/// resulting event is a stored one or `e` itself; the event under `e.id`
/// is now `e` and every other id keeps its event.
pub proof fn lemma_upsert_event(s: Seq<event_t>, e: event_t)
    requires
        unique_eids(s),
    ensures
        unique_eids(upsert_event(s, e)),
        forall|x: u128| has_eid(upsert_event(s, e), x) == (has_eid(s, x) || x == e.id),
        forall|i: int|
            0 <= i < upsert_event(s, e).len() ==> (#[trigger] upsert_event(s, e)[i]) == e
                || s.contains(upsert_event(s, e)[i]),
        upsert_event(s, e)[eid_index(upsert_event(s, e), e.id)] == e,
        forall|x: u128|
            x != e.id && has_eid(s, x) ==> upsert_event(s, e)[eid_index(
                #[trigger] upsert_event(s, e),
                x,
            )] == s[eid_index(s, x)],
{
    let t = upsert_event(s, e);
    if has_eid(s, e.id) {
        lemma_eid_index(s, e.id);
        let k = eid_index(s, e.id);
        assert forall|x: u128| has_eid(t, x) implies (has_eid(s, x) || x == e.id) by {
            let i = choose|i: int| 0 <= i < t.len() && t[i].id == x;
            if i != k {
                assert(s[i].id == x);
            }
        }
        assert forall|x: u128| has_eid(s, x) || x == e.id implies has_eid(t, x) by {
            if x == e.id {
                assert(t[k].id == x);
            } else {
                let i = choose|i: int| 0 <= i < s.len() && s[i].id == x;
                assert(t[i].id == x);
            }
        }
        assert forall|i: int| 0 <= i < t.len() implies t[i] == e || s.contains(t[i]) by {
            if i != k {
                assert(t[i] == s[i]);
            }
        }
        assert(unique_eids(t)) by {
            assert forall|a: int, b: int|
                0 <= a < b < t.len() implies (#[trigger] t[a]).id != (#[trigger] t[b]).id by {
                if a != k && b != k {
                    assert(t[a] == s[a] && t[b] == s[b]);
                }
            }
        }
        lemma_eid_index(t, e.id);
        assert(t[k].id == e.id);
        assert(eid_index(t, e.id) == k);
        assert forall|x: u128| x != e.id && has_eid(s, x) implies t[eid_index(t, x)]
            == s[eid_index(s, x)] by {
            lemma_eid_index(s, x);
            let i = eid_index(s, x);
            assert(i != k);
            assert(t[i] == s[i]);
            lemma_eid_index(t, x);
            assert(eid_index(t, x) == i);
        }
    } else {
        assert forall|x: u128| has_eid(t, x) implies (has_eid(s, x) || x == e.id) by {
            let i = choose|i: int| 0 <= i < t.len() && t[i].id == x;
            if i < s.len() {
                assert(s[i].id == x);
            }
        }
        assert forall|x: u128| has_eid(s, x) || x == e.id implies has_eid(t, x) by {
            if x == e.id {
                assert(t[s.len() as int].id == x);
            } else {
                let i = choose|i: int| 0 <= i < s.len() && s[i].id == x;
                assert(t[i].id == x);
            }
        }
        assert forall|i: int| 0 <= i < t.len() implies t[i] == e || s.contains(t[i]) by {
            if i < s.len() {
                assert(t[i] == s[i]);
            }
        }
        assert(unique_eids(t)) by {
            assert forall|a: int, b: int|
                0 <= a < b < t.len() implies (#[trigger] t[a]).id != (#[trigger] t[b]).id by {
                if b < s.len() {
                    assert(t[a] == s[a] && t[b] == s[b]);
                } else {
                    assert(t[a] == s[a] && t[b] == e);
                    assert(!has_eid(s, e.id));
                }
            }
        }
        lemma_eid_index(t, e.id);
        assert(t[s.len() as int].id == e.id);
        assert(eid_index(t, e.id) == s.len() as int);
        assert forall|x: u128| x != e.id && has_eid(s, x) implies t[eid_index(t, x)]
            == s[eid_index(s, x)] by {
            lemma_eid_index(s, x);
            let i = eid_index(s, x);
            assert(t[i] == s[i]);
            lemma_eid_index(t, x);
            assert(eid_index(t, x) == i);
        }
    }
}

/// What a batch insertion does: ids become the union, distinctness is
/// kept, every resulting event was stored before or was submitted.
pub proof fn lemma_merge_events(base: Seq<event_t>, add: Seq<event_t>)
    requires
        unique_eids(base),
    ensures
        unique_eids(merge_events(base, add)),
        forall|x: u128|
            has_eid(merge_events(base, add), x) == (has_eid(base, x) || has_eid(add, x)),
        forall|i: int|
            0 <= i < merge_events(base, add).len() ==> base.contains(
                #[trigger] merge_events(base, add)[i],
            ) || add.contains(merge_events(base, add)[i]),
    decreases add.len(),
{
    if add.len() == 0 {
    } else {
        let e = add.first();
        let b2 = upsert_event(base, e);
        let rest = add.drop_first();
        lemma_upsert_event(base, e);
        lemma_merge_events(b2, rest);
        let m = merge_events(base, add);
        assert(m == merge_events(b2, rest));
        assert forall|x: u128| has_eid(m, x) implies (has_eid(base, x) || has_eid(add, x)) by {
            if has_eid(b2, x) && !has_eid(base, x) {
                assert(x == e.id);
                assert(add[0].id == x);
            }
            if has_eid(rest, x) {
                let i = choose|i: int| 0 <= i < rest.len() && rest[i].id == x;
                assert(add[i + 1].id == x);
            }
        }
        assert forall|x: u128| has_eid(base, x) || has_eid(add, x) implies has_eid(m, x) by {
            if has_eid(add, x) {
                let i = choose|i: int| 0 <= i < add.len() && add[i].id == x;
                if i == 0 {
                    assert(has_eid(b2, x));
                } else {
                    assert(rest[i - 1].id == x);
                    assert(has_eid(rest, x));
                }
            } else {
                assert(has_eid(b2, x));
            }
            assert(has_eid(merge_events(b2, rest), x));
        }
        assert forall|i: int| 0 <= i < m.len() implies base.contains(#[trigger] m[i])
            || add.contains(m[i]) by {
            if b2.contains(m[i]) && !base.contains(m[i]) {
                let j = choose|j: int| 0 <= j < b2.len() && b2[j] == m[i];
                assert(b2[j] == e || base.contains(b2[j]));
                assert(add[0] == m[i]);
            }
            if rest.contains(m[i]) {
                let j = choose|j: int| 0 <= j < rest.len() && rest[j] == m[i];
                assert(add[j + 1] == m[i]);
            }
        }
    }
}

impl sync_record_t {
    /// Structural invariant of a record.
    pub open spec fn wf(self) -> bool {
        &&& unique_eids(self.reports@)
        &&& unique_eids(self.actions@)
        &&& unique_users(self.users_phase@)
        &&& forall|i: int|
            0 <= i < self.reports@.len() ==> seq_phase(
                self.users_phase@,
                (#[trigger] self.reports@[i]).from,
            ).as_int() >= 1
        &&& forall|i: int|
            0 <= i < self.actions@.len() ==> seq_phase(
                self.users_phase@,
                (#[trigger] self.actions@[i]).from,
            ).as_int() >= 1
    }

    /// The phase of `u` within this record; `CREATED` until observed.
    pub open spec fn phase_of(self, u: u128) -> phase_t {
        seq_phase(self.users_phase@, u)
    }

    /// The greatest phase over the users observed by this record.
    pub open spec fn max_phase(self) -> phase_t {
        seq_max_phase(self.users_phase@)
    }

    /// An empty record with the given id.
    pub fn with_id(id: u128) -> (r: Self)
        ensures
            r.id == id,
            r.reports@ == Seq::<event_t>::empty(),
            r.actions@ == Seq::<event_t>::empty(),
            r.users_phase@ == Seq::<phase_entry>::empty(),
            r.wf(),
    {
        sync_record_t { id, reports: Vec::new(), actions: Vec::new(), users_phase: Vec::new() }
    }

    /// An empty record with a freshly generated, time-ordered id.
    pub fn new() -> (r: Self)
        ensures
            0 < r.id < u128::MAX,
            r.reports@ == Seq::<event_t>::empty(),
            r.actions@ == Seq::<event_t>::empty(),
            r.users_phase@ == Seq::<phase_entry>::empty(),
            r.wf(),
    {
        Self::with_id(fresh_id())
    }

    fn find_phase_index(&self, u: u128) -> (r: Option<usize>)
        ensures
            match r {
                Some(i) => i < self.users_phase@.len() && self.users_phase@[i as int].user == u,
                None => !has_phase_key(self.users_phase@, u),
            },
    {
        let mut i: usize = 0;
        while i < self.users_phase.len()
            invariant
                0 <= i <= self.users_phase@.len(),
                forall|j: int| 0 <= j < i ==> (#[trigger] self.users_phase@[j]).user != u,
            decreases self.users_phase@.len() - i,
        {
            if self.users_phase[i].user == u {
                return Some(i);
            }
            i = i + 1;
        }
        None
    }

    /// The phase of `u` without inserting an entry.
    pub fn peek_phase(&self, u: u128) -> (r: phase_t)
        requires
            unique_users(self.users_phase@),
        ensures
            r == self.phase_of(u),
    {
        match self.find_phase_index(u) {
            Some(i) => {
                let r = self.users_phase[i];
                proof {
                    lemma_seq_phase_found(self.users_phase@, i as int, u);
                }
                r.phase
            },
            None => {
                proof {
                    lemma_seq_phase_absent(self.users_phase@, u);
                }
                phase_t::CREATED
            },
        }
    }

    /// Set the phase of `u` to exactly `p`, observing `u` if needed.
    fn set_phase(&mut self, u: u128, p: phase_t)
        requires
            unique_users(old(self).users_phase@),
        ensures
            unique_users(final(self).users_phase@),
            final(self).phase_of(u) == p,
            forall|x: u128| x != u ==> final(self).phase_of(x) == old(self).phase_of(x),
            forall|x: u128|
                has_phase_key(final(self).users_phase@, x) == (has_phase_key(
                    old(self).users_phase@,
                    x,
                ) || x == u),
            final(self).id == old(self).id,
            final(self).reports == old(self).reports,
            final(self).actions == old(self).actions,
    {
        let entry = phase_entry { user: u, phase: p };
        match self.find_phase_index(u) {
            Some(i) => {
                proof {
                    lemma_seq_phase_update(self.users_phase@, i as int, entry, u);
                    assert forall|x: u128| x != u implies seq_phase(
                        self.users_phase@.update(i as int, entry),
                        x,
                    ) == seq_phase(self.users_phase@, x) by {
                        lemma_seq_phase_update(self.users_phase@, i as int, entry, x);
                    }
                    assert forall|x: u128|
                        has_phase_key(self.users_phase@.update(i as int, entry), x) == (
                        has_phase_key(self.users_phase@, x) || x == u) by {
                        let t = self.users_phase@.update(i as int, entry);
                        if has_phase_key(t, x) {
                            let j = choose|j: int| 0 <= j < t.len() && t[j].user == x;
                            if j != i {
                                assert(self.users_phase@[j].user == x);
                            }
                        }
                        if has_phase_key(self.users_phase@, x) {
                            let j = choose|j: int|
                                0 <= j < self.users_phase@.len() && self.users_phase@[j].user == x;
                            if j != i {
                                assert(t[j].user == x);
                            } else {
                                assert(t[i as int].user == u);
                            }
                        }
                        if x == u {
                            assert(t[i as int].user == x);
                        }
                    }
                }
                self.users_phase.set(i, entry);
            },
            None => {
                proof {
                    let s = self.users_phase@;
                    let t = s.push(entry);
                    assert(t.drop_last() =~= s);
                    assert forall|x: u128| has_phase_key(t, x) == (has_phase_key(s, x) || x == u) by {
                        if has_phase_key(t, x) {
                            let j = choose|j: int| 0 <= j < t.len() && t[j].user == x;
                            if j < s.len() {
                                assert(s[j].user == x);
                            }
                        }
                        if has_phase_key(s, x) {
                            let j = choose|j: int| 0 <= j < s.len() && s[j].user == x;
                            assert(t[j].user == x);
                        }
                        if x == u {
                            assert(t[s.len() as int].user == x);
                        }
                    }
                }
                self.users_phase.push(entry);
            },
        }
    }

    /// The user's phase, observing the user: an absent user is entered at
    /// `CREATED`, so that one who first appears mid-round counts as "not
    /// yet submitted" rather than missing.
    pub fn get_phase(&mut self, user_id: u128) -> (r: phase_t)
        requires
            unique_users(old(self).users_phase@),
        ensures
            r == old(self).phase_of(user_id),
            unique_users(final(self).users_phase@),
            forall|x: u128| final(self).phase_of(x) == old(self).phase_of(x),
            final(self).id == old(self).id,
            final(self).reports == old(self).reports,
            final(self).actions == old(self).actions,
            old(self).wf() ==> final(self).wf(),
    {
        let r = self.peek_phase(user_id);
        let ghost pre = *self;
        self.set_phase(user_id, r);
        proof {
            if pre.wf() {
                assert forall|x: u128|
                    self.phase_of(x).as_int() >= pre.phase_of(x).as_int() by {}
                lemma_wf_phase_raise(pre, *self);
            }
        }
        r
    }

    /// Monotonic set: raise the user's phase to `new_phase` if that is an
    /// advance; report whether it was.
    pub fn advance_phase(&mut self, user_id: u128, new_phase: phase_t) -> (r: bool)
        requires
            unique_users(old(self).users_phase@),
        ensures
            unique_users(final(self).users_phase@),
            final(self).phase_of(user_id) == phase_max(old(self).phase_of(user_id), new_phase),
            forall|x: u128| x != user_id ==> final(self).phase_of(x) == old(self).phase_of(x),
            r == (new_phase.as_int() > old(self).phase_of(user_id).as_int()),
            forall|x: u128|
                final(self).phase_of(x).as_int() >= old(self).phase_of(x).as_int(),
            final(self).id == old(self).id,
            final(self).reports == old(self).reports,
            final(self).actions == old(self).actions,
            old(self).wf() ==> final(self).wf(),
    {
        let ghost pre = *self;
        let cur = self.peek_phase(user_id);
        if new_phase.num() <= cur.num() {
            let _ = self.set_phase(user_id, cur);
            proof {
                if pre.wf() {
                    lemma_wf_phase_raise(pre, *self);
                }
            }
            return false;
        }
        self.set_phase(user_id, new_phase);
        proof {
            if pre.wf() {
                lemma_wf_phase_raise(pre, *self);
            }
        }
        true
    }

    /// The maximum phase across the users observed by this record;
    /// `CREATED` when none has been.
    pub fn get_max_phase(&self) -> (r: phase_t)
        ensures
            r == self.max_phase(),
    {
        let mut i: usize = 0;
        let mut m = phase_t::CREATED;
        while i < self.users_phase.len()
            invariant
                0 <= i <= self.users_phase@.len(),
                m == seq_max_phase(self.users_phase@.take(i as int)),
            decreases self.users_phase@.len() - i,
        {
            let e = self.users_phase[i];
            proof {
                assert(self.users_phase@.take(i as int + 1).drop_last() =~= self.users_phase@.take(
                    i as int,
                ));
            }
            if e.phase.num() > m.num() {
                m = e.phase;
            }
            i = i + 1;
        }
        proof {
            assert(self.users_phase@.take(self.users_phase@.len() as int) =~= self.users_phase@);
        }
        m
    }

    /// Deposit one user's submissions into the round.
    ///
    /// Fails with *bad-request* when the user has already advanced past
    /// `CREATED` on this record, or when some submitted event does not
    /// originate from `from`. Otherwise merges the reports and the
    /// actions into their separate maps and moves the user to `WAITING`.
    pub fn add_events(&mut self, from: u128, new_reports: Vec<event_t>, new_actions: Vec<event_t>)
        -> (r: Result<(), AgError>)
        requires
            old(self).wf(),
        ensures
            final(self).wf(),
            final(self).id == old(self).id,
            forall|x: u128|
                final(self).phase_of(x).as_int() >= old(self).phase_of(x).as_int(),
            match r {
                Ok(_) => {
                    &&& old(self).phase_of(from) is CREATED
                    &&& all_from(new_reports@, from)
                    &&& all_from(new_actions@, from)
                    &&& final(self).reports@ == merge_events(old(self).reports@, new_reports@)
                    &&& final(self).actions@ == merge_events(old(self).actions@, new_actions@)
                    &&& final(self).phase_of(from) is WAITING
                    &&& forall|x: u128|
                        x != from ==> final(self).phase_of(x) == old(self).phase_of(x)
                },
                Err(e) => {
                    &&& *final(self) == *old(self)
                    &&& !(old(self).phase_of(from) is CREATED && all_from(new_reports@, from)
                        && all_from(new_actions@, from))
                    &&& is_bad_request(
                        e,
                        if !(old(self).phase_of(from) is CREATED) {
                            "Record already synced."@
                        } else if !all_from(new_reports@, from) {
                            "Invalid report from."@
                        } else {
                            "Invalid action from."@
                        },
                    )
                },
            },
    {
        let cur = self.peek_phase(from);
        if cur.num() > 0 {
            return Err(AgError::bad_request_error("Record already synced."));
        }
        let mut i: usize = 0;
        while i < new_reports.len()
            invariant
                0 <= i <= new_reports@.len(),
                forall|j: int| 0 <= j < i ==> (#[trigger] new_reports@[j]).from == from,
                *self == *old(self),
                old(self).wf(),
                old(self).phase_of(from) is CREATED,
            decreases new_reports@.len() - i,
        {
            if new_reports[i].from != from {
                assert(!all_from(new_reports@, from));
                return Err(AgError::bad_request_error("Invalid report from."));
            }
            i = i + 1;
        }
        let mut i: usize = 0;
        while i < new_actions.len()
            invariant
                0 <= i <= new_actions@.len(),
                forall|j: int| 0 <= j < i ==> (#[trigger] new_actions@[j]).from == from,
                *self == *old(self),
                old(self).wf(),
                old(self).phase_of(from) is CREATED,
                all_from(new_reports@, from),
            decreases new_actions@.len() - i,
        {
            if new_actions[i].from != from {
                assert(!all_from(new_actions@, from));
                return Err(AgError::bad_request_error("Invalid action from."));
            }
            i = i + 1;
        }
        let ghost pre = *self;
        merge_into(&mut self.reports, new_reports);
        merge_into(&mut self.actions, new_actions);
        self.set_phase(from, phase_t::WAITING);
        proof {
            lemma_merge_events(pre.reports@, new_reports@);
            lemma_merge_events(pre.actions@, new_actions@);
            assert forall|i: int| 0 <= i < self.reports@.len() implies seq_phase(
                self.users_phase@,
                (#[trigger] self.reports@[i]).from,
            ).as_int() >= 1 by {
                let e = self.reports@[i];
                if pre.reports@.contains(e) {
                    let j = choose|j: int| 0 <= j < pre.reports@.len() && pre.reports@[j] == e;
                    assert(pre.reports@[j] == e);
                    assert(pre.phase_of(e.from).as_int() >= 1);
                    assert(self.phase_of(e.from).as_int() >= pre.phase_of(e.from).as_int());
                } else {
                    let j = choose|j: int| 0 <= j < new_reports@.len() && new_reports@[j] == e;
                    assert(new_reports@[j].from == from);
                    assert(self.phase_of(from) is WAITING);
                }
            }
            assert forall|i: int| 0 <= i < self.actions@.len() implies seq_phase(
                self.users_phase@,
                (#[trigger] self.actions@[i]).from,
            ).as_int() >= 1 by {
                let e = self.actions@[i];
                if pre.actions@.contains(e) {
                    let j = choose|j: int| 0 <= j < pre.actions@.len() && pre.actions@[j] == e;
                    assert(pre.actions@[j] == e);
                    assert(pre.phase_of(e.from).as_int() >= 1);
                    assert(self.phase_of(e.from).as_int() >= pre.phase_of(e.from).as_int());
                } else {
                    let j = choose|j: int| 0 <= j < new_actions@.len() && new_actions@[j] == e;
                    assert(new_actions@[j].from == from);
                    assert(self.phase_of(from) is WAITING);
                }
            }
        }
        Ok(())
    }

    /// The reports deposited in this round, in admission order.
    pub fn get_reports(&self) -> (r: &Vec<event_t>)
        ensures
            r@ == self.reports@,
    {
        &self.reports
    }

    /// The actions deposited in this round, in admission order.
    pub fn get_actions(&self) -> (r: &Vec<event_t>)
        ensures
            r@ == self.actions@,
    {
        &self.actions
    }
}

/// Raising phases pointwise preserves the record invariant.
proof fn lemma_wf_phase_raise(a: sync_record_t, b: sync_record_t)
    requires
        a.wf(),
        b.reports == a.reports,
        b.actions == a.actions,
        b.id == a.id,
        unique_users(b.users_phase@),
        forall|x: u128| b.phase_of(x).as_int() >= a.phase_of(x).as_int(),
    ensures
        b.wf(),
{
    assert forall|i: int| 0 <= i < b.reports@.len() implies seq_phase(
        b.users_phase@,
        (#[trigger] b.reports@[i]).from,
    ).as_int() >= 1 by {
        let x = b.reports@[i].from;
        assert(a.phase_of(x).as_int() >= 1);
        assert(b.phase_of(x).as_int() >= a.phase_of(x).as_int());
    }
    assert forall|i: int| 0 <= i < b.actions@.len() implies seq_phase(
        b.users_phase@,
        (#[trigger] b.actions@[i]).from,
    ).as_int() >= 1 by {
        let x = b.actions@[i].from;
        assert(a.phase_of(x).as_int() >= 1);
        assert(b.phase_of(x).as_int() >= a.phase_of(x).as_int());
    }
}

/// A found index reads back as the phase.
proof fn lemma_seq_phase_found(s: Seq<phase_entry>, i: int, u: u128)
    requires
        unique_users(s),
        0 <= i < s.len(),
        s[i].user == u,
    ensures
        seq_phase(s, u) == s[i].phase,
    decreases s.len(),
{
    if i == s.len() - 1 {
    } else {
        assert(s.last().user != u);
        assert(s.drop_last()[i] == s[i]);
        lemma_seq_phase_found(s.drop_last(), i, u);
    }
}

/// An absent user reads as `CREATED`.
proof fn lemma_seq_phase_absent(s: Seq<phase_entry>, u: u128)
    requires
        !has_phase_key(s, u),
    ensures
        seq_phase(s, u) == phase_t::CREATED,
    decreases s.len(),
{
    if s.len() > 0 {
        assert(s.last().user != u);
        assert(forall|i: int| 0 <= i < s.drop_last().len() ==> s.drop_last()[i] == s[i]);
        lemma_seq_phase_absent(s.drop_last(), u);
    }
}

impl Clone for sync_record_t {
    fn clone(&self) -> (r: Self)
        ensures
            r.id == self.id,
            r.reports@ == self.reports@,
            r.actions@ == self.actions@,
            r.users_phase@ == self.users_phase@,
    {
        let r = sync_record_t {
            id: self.id,
            reports: self.reports.clone(),
            actions: self.actions.clone(),
            users_phase: self.users_phase.clone(),
        };
        proof {
            assert forall|i: int| 0 <= i < r.reports@.len() implies (#[trigger] r.reports@[i])
                == self.reports@[i] by {
                assert(cloned::<event_t>(self.reports@[i], r.reports@[i]));
            }
            assert forall|i: int| 0 <= i < r.actions@.len() implies (#[trigger] r.actions@[i])
                == self.actions@[i] by {
                assert(cloned::<event_t>(self.actions@[i], r.actions@[i]));
            }
            assert forall|i: int|
                0 <= i < r.users_phase@.len() implies (#[trigger] r.users_phase@[i])
                    == self.users_phase@[i] by {
                assert(cloned::<phase_entry>(self.users_phase@[i], r.users_phase@[i]));
            }
            assert(r.reports@ =~= self.reports@);
            assert(r.actions@ =~= self.actions@);
            assert(r.users_phase@ =~= self.users_phase@);
        }
        r
    }
}

/// The last position at which an event with this id was submitted, or
/// minus one when none was.
pub open spec fn last_eid_index(s: Seq<event_t>, id: u128) -> int
    decreases s.len(),
{
    if s.len() == 0 {
        -1
    } else if s.last().id == id {
        s.len() - 1
    } else {
        last_eid_index(s.drop_last(), id)
    }
}

/// Merging one more submission is one insertion at the end.
pub proof fn lemma_merge_push(base: Seq<event_t>, add: Seq<event_t>, e: event_t)
    ensures
        merge_events(base, add.push(e)) == upsert_event(merge_events(base, add), e),
    decreases add.len(),
{
    let p = add.push(e);
    if add.len() == 0 {
        assert(p.first() == e);
        assert(p.drop_first() =~= Seq::<event_t>::empty());
        assert(merge_events(base, p) == merge_events(upsert_event(base, e), p.drop_first()));
    } else {
        assert(p.first() == add.first());
        assert(p.drop_first() =~= add.drop_first().push(e));
        lemma_merge_push(upsert_event(base, add.first()), add.drop_first(), e);
    }
}

/// Law: within one round the stored event of each id is pinned exactly.
/// An id that was submitted maps to its latest submission; an id that
/// was not keeps the event already stored.
pub proof fn lemma_merge_last_writer(base: Seq<event_t>, add: Seq<event_t>, id: u128)
    requires
        unique_eids(base),
    ensures
        has_eid(add, id) ==> {
            &&& 0 <= last_eid_index(add, id) < add.len()
            &&& add[last_eid_index(add, id)].id == id
            &&& merge_events(base, add)[eid_index(merge_events(base, add), id)] == add[
                last_eid_index(add, id)]
        },
        !has_eid(add, id) && has_eid(base, id) ==> merge_events(base, add)[eid_index(
            merge_events(base, add),
            id,
        )] == base[eid_index(base, id)],
    decreases add.len(),
{
    if add.len() == 0 {
        if has_eid(add, id) {
            let i = choose|i: int| 0 <= i < add.len() && add[i].id == id;
            assert(false);
        }
    } else {
        let a = add.drop_last();
        let e = add.last();
        assert(add =~= a.push(e));
        lemma_merge_push(base, a, e);
        let m = merge_events(base, a);
        lemma_merge_events(base, a);
        lemma_upsert_event(m, e);
        lemma_merge_last_writer(base, a, id);
        let t = merge_events(base, add);
        assert(t == upsert_event(m, e));
        if id == e.id {
            assert(last_eid_index(add, id) == add.len() - 1);
            assert(add[add.len() - 1] == e);
            assert(t[eid_index(t, id)] == e);
            assert(has_eid(add, id)) by {
                assert(add[add.len() - 1].id == id);
            }
        } else {
            assert(last_eid_index(add, id) == last_eid_index(a, id));
            assert(has_eid(add, id) == has_eid(a, id)) by {
                if has_eid(add, id) {
                    let i = choose|i: int| 0 <= i < add.len() && add[i].id == id;
                    assert(i < a.len());
                    assert(a[i].id == id);
                }
                if has_eid(a, id) {
                    let i = choose|i: int| 0 <= i < a.len() && a[i].id == id;
                    assert(add[i].id == id);
                }
            }
            if has_eid(a, id) {
                assert(t[eid_index(t, id)] == m[eid_index(m, id)]);
                assert(0 <= last_eid_index(a, id) < a.len());
                assert(add[last_eid_index(add, id)] == a[last_eid_index(a, id)]);
            } else if has_eid(base, id) {
                assert(has_eid(m, id));
                assert(t[eid_index(t, id)] == m[eid_index(m, id)]);
            }
        }
    }
}

/// Law: deposits within one round accumulate. After one member merges
/// the batch `xs` and another merges `ys`, the record holds an event id
/// exactly when the round already held it or some batch submitted it;
/// and every stored event is a prior one or a submitted one.
pub proof fn lemma_deposits_accumulate(base: Seq<event_t>, xs: Seq<event_t>, ys: Seq<event_t>)
    requires
        unique_eids(base),
    ensures
        forall|id: u128|
            has_eid(merge_events(merge_events(base, xs), ys), id) == (has_eid(base, id)
                || has_eid(xs, id) || has_eid(ys, id)),
        forall|i: int|
            0 <= i < merge_events(merge_events(base, xs), ys).len() ==> {
                let e = #[trigger] merge_events(merge_events(base, xs), ys)[i];
                base.contains(e) || xs.contains(e) || ys.contains(e)
            },
{
    lemma_merge_events(base, xs);
    lemma_merge_events(merge_events(base, xs), ys);
}

fn find_eid(v: &Vec<event_t>, id: u128) -> (r: Option<usize>)
    ensures
        match r {
            Some(i) => i < v@.len() && v@[i as int].id == id,
            None => !has_eid(v@, id),
        },
{
    let mut i: usize = 0;
    while i < v.len()
        invariant
            0 <= i <= v@.len(),
            forall|j: int| 0 <= j < i ==> (#[trigger] v@[j]).id != id,
        decreases v@.len() - i,
    {
        if v[i].id == id {
            return Some(i);
        }
        i = i + 1;
    }
    None
}

fn upsert_into(dst: &mut Vec<event_t>, e: event_t)
    requires
        unique_eids(old(dst)@),
    ensures
        final(dst)@ == upsert_event(old(dst)@, e),
        unique_eids(final(dst)@),
{
    proof {
        lemma_upsert_event(old(dst)@, e);
    }
    match find_eid(dst, e.id) {
        Some(i) => {
            proof {
                lemma_eid_index(dst@, e.id);
                assert(eid_index(dst@, e.id) == i as int);
            }
            dst.set(i, e);
        },
        None => {
            dst.push(e);
        },
    }
}

fn merge_into(dst: &mut Vec<event_t>, src: Vec<event_t>)
    requires
        unique_eids(old(dst)@),
    ensures
        final(dst)@ == merge_events(old(dst)@, src@),
        unique_eids(final(dst)@),
{
    let ghost base = old(dst)@;
    let ghost all = src@;
    let mut src = src;
    while src.len() > 0
        invariant
            unique_eids(dst@),
            merge_events(dst@, src@) == merge_events(base, all),
        decreases src@.len(),
    {
        let ghost before = src@;
        let e = src.remove(0);
        proof {
            assert(src@ =~= before.drop_first());
            assert(before.first() == e);
            assert(merge_events(dst@, before) == merge_events(upsert_event(dst@, e), src@));
        }
        upsert_into(dst, e);
    }
}

} // verus!
