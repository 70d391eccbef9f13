//! Terminal sessions and the registry that keeps them between calls.
//!
//! A session is a screen and the parser that feeds it. The registry hands
//! out ids from a counter that starts at 1 and holds each live session
//! under its id.
use crate::intmap::IntMap;
use crate::screens::{Screen, ScreenM};
use crate::streams::{feed, feed_bytes_model, on_events, Stream, StreamM};
use vstd::prelude::*;

verus! {

/// The abstract value of a session.
pub struct SessionM {
    pub screen: ScreenM,
    pub stream: StreamM,
}

/// One terminal session: a screen model and the parser feeding it.
pub struct Session {
    pub screen: Screen,
    pub stream: Stream,
}

impl View for Session {
    type V = SessionM;

    open spec fn view(&self) -> SessionM {
        SessionM { screen: self.screen@, stream: self.stream@ }
    }
}

impl Session {
    /// The screen's and the parser's invariants.
    pub open spec fn wf(&self) -> bool {
        self.screen.wf() && self.stream.wf()
    }

    /// Feeds raw bytes through the parser into the screen.
    pub fn feed_bytes(&mut self, data: &[u8])
        requires
            old(self).wf(),
        ensures
            final(self).wf(),
            final(self).stream@ == feed_bytes_model(old(self).stream@, data@).0,
            final(self).screen@ == on_events::<Screen>(
                old(self).screen@,
                feed_bytes_model(old(self).stream@, data@).1,
            ),
    {
        self.stream.feed_bytes(&mut self.screen, data);
    }

    /// Feeds text through the parser into the screen.
    pub fn feed_str(&mut self, data: &str)
        requires
            old(self).wf(),
        ensures
            final(self).wf(),
            final(self).stream@ == feed(old(self).stream@, data@).0,
            final(self).screen@ == on_events::<Screen>(old(self).screen@, feed(old(self).stream@, data@).1),
    {
        self.stream.feed_str(&mut self.screen, data);
    }
}

/// The abstract value of a registry: the live sessions by id, the id the
/// next session gets, and whether the counter has wrapped around.
pub struct RegistryM {
    pub sessions: Map<int, SessionM>,
    pub next: int,
    pub wrapped: bool,
}

/// The live sessions, each under its id, and the id counter.
pub struct Registry {
    sessions: IntMap<Session>,
    next: u64,
    wrapped: bool,
}

/// The key an id is stored under: ids are shifted into the `i64` range,
/// keeping their order.
pub open spec fn key_of(id: int) -> int {
    id - 0x8000_0000_0000_0000
}

/// The id after `id`, wrapping around after `u64::MAX`.
pub open spec fn following_id(id: int) -> int {
    if id == u64::MAX {
        0
    } else {
        id + 1
    }
}

impl View for Registry {
    type V = RegistryM;

    closed spec fn view(&self) -> RegistryM {
        RegistryM {
            sessions: Map::new(
                |id: int| 0 <= id <= u64::MAX && self.sessions@.contains_key(key_of(id)),
                |id: int| self.sessions@[key_of(id)],
            ),
            next: self.next as int,
            wrapped: self.wrapped,
        }
    }
}

/// The stored key of an id.
fn key_exec(id: u64) -> (k: i64)
    ensures
        k == key_of(id as int),
{
    if id >= 0x8000_0000_0000_0000 {
        (id - 0x8000_0000_0000_0000) as i64
    } else {
        (id as i64) + i64::MIN
    }
}

/// The id a stored key stands for.
fn id_exec(k: i64) -> (id: u64)
    ensures
        key_of(id as int) == k,
{
    if k >= 0 {
        (k as u64) + 0x8000_0000_0000_0000
    } else {
        (k - i64::MIN) as u64
    }
}

impl Registry {
    /// The registry's invariant: the stored sessions are well formed and
    /// sorted by key, and until the counter wraps around every live id is
    /// below the next one.
    pub closed spec fn wf(&self) -> bool {
        &&& self.sessions.wf()
        &&& forall|i: int| 0 <= i < self.sessions.entries@.len() ==> (#[trigger] self.sessions.entries@[i]).1.wf()
        &&& ids_below_next(self@)
    }

    /// Whether a session may be stored under `id`: the id was handed out
    /// already (it is below the counter), or the counter has wrapped around.
    pub fn can_hold(&self, id: u64) -> (b: bool)
        ensures
            b == (self@.wrapped || (id as int) < self@.next),
    {
        self.wrapped || id < self.next
    }

    /// An empty registry whose first id is 1.
    pub fn new() -> (r: Registry)
        ensures
            r.wf(),
            r@.sessions == Map::<int, SessionM>::empty(),
            r@.next == 1,
            !r@.wrapped,
    {
        let r = Registry { sessions: IntMap::new(), next: 1, wrapped: false };
        assert(r@.sessions =~= Map::<int, SessionM>::empty());
        r
    }
}

/// Until the counter wraps around, every live id is below the next one.
pub open spec fn ids_below_next(r: RegistryM) -> bool {
    !r.wrapped ==> forall|id: int| #[trigger] r.sessions.contains_key(id) ==> id < r.next
}

/// Hands out the next id; the counter wraps around after `u64::MAX`.
pub fn next_id(reg: &mut Registry) -> (id: u64)
    requires
        old(reg).wf(),
    ensures
        final(reg).wf(),
        id == old(reg)@.next,
        final(reg)@ == (RegistryM {
            next: following_id(old(reg)@.next),
            wrapped: old(reg)@.wrapped || old(reg)@.next == u64::MAX,
            ..old(reg)@
        }),
{
    let id = reg.next;
    if id == u64::MAX {
        reg.next = 0;
        reg.wrapped = true;
    } else {
        reg.next = id + 1;
    }
    assert(reg@.sessions =~= old(reg)@.sessions);
    id
}

/// Stores a session under the next id and returns that id.
pub fn insert(reg: &mut Registry, session: Session) -> (id: u64)
    requires
        old(reg).wf(),
        session.wf(),
    ensures
        final(reg).wf(),
        id == old(reg)@.next,
        final(reg)@.next == following_id(old(reg)@.next),
        final(reg)@.wrapped == (old(reg)@.wrapped || old(reg)@.next == u64::MAX),
        final(reg)@.sessions == old(reg)@.sessions.insert(id as int, session@),
        !old(reg)@.wrapped ==> !old(reg)@.sessions.contains_key(id as int),
        !old(reg)@.wrapped ==> forall|k: int| #[trigger] old(reg)@.sessions.contains_key(k) ==> k < id,
{
    let id = next_id(reg);
    put_session(reg, id, session);
    id
}

/// Stores a session under `id`, replacing any session there.
pub fn put_session(reg: &mut Registry, id: u64, session: Session)
    requires
        old(reg).wf(),
        session.wf(),
        old(reg)@.wrapped || (id as int) < old(reg)@.next,
    ensures
        final(reg).wf(),
        final(reg)@ == (RegistryM {
            sessions: old(reg)@.sessions.insert(id as int, session@),
            ..old(reg)@
        }),
{
    let k = key_exec(id);
    let ghost s = session@;
    let ghost before = reg.sessions.entries@;
    proof {
        assert(forall|i: int| 0 <= i < before.len() ==> (#[trigger] before[i]).1.wf());
    }
    reg.sessions.insert(k, session);
    proof {
        let after = reg.sessions.entries@;
        assert forall|j: int| 0 <= j < after.len() implies (#[trigger] after[j]).1.wf() by {
            if !(after[j] == (k, session)) {
                assert(before.contains(after[j]));
                let i = choose|i: int| 0 <= i < before.len() && before[i] == after[j];
                assert(before[i].1.wf());
            }
        }
    }
    assert(reg@.sessions =~= old(reg)@.sessions.insert(id as int, s));
}

/// Takes the session under `id` out of the registry, if there is one.
pub fn take_session(reg: &mut Registry, id: u64) -> (r: Option<Session>)
    requires
        old(reg).wf(),
    ensures
        final(reg).wf(),
        r is Some <==> old(reg)@.sessions.contains_key(id as int),
        r matches Some(s) ==> s.wf() && s@ == old(reg)@.sessions[id as int],
        r is Some ==> old(reg)@.wrapped || (id as int) < old(reg)@.next,
        final(reg)@ == (RegistryM { sessions: old(reg)@.sessions.remove(id as int), ..old(reg)@ }),
{
    proof {
        assert(ids_below_next(old(reg)@));
        if old(reg)@.sessions.contains_key(id as int) {
            assert(old(reg)@.wrapped || (id as int) < old(reg)@.next);
        }
    }
    let k = key_exec(id);
    let ghost before = reg.sessions.entries@;
    let r = reg.sessions.remove(k);
    proof {
        let after = reg.sessions.entries@;
        assert forall|j: int| 0 <= j < after.len() implies (#[trigger] after[j]).1.wf() by {
            assert(before.contains(after[j]));
            let i = choose|i: int| 0 <= i < before.len() && before[i] == after[j];
            assert(before[i].1.wf());
        }
        if r is Some {
            let s = r->Some_0;
            assert(before.contains((k, s)));
            let i = choose|i: int| 0 <= i < before.len() && before[i] == (k, s);
            assert(before[i].1.wf());
        }
    }
    assert(reg@.sessions =~= old(reg)@.sessions.remove(id as int));
    r
}

/// Removes a session; whether there was one under `id`.
pub fn remove(reg: &mut Registry, id: u64) -> (b: bool)
    requires
        old(reg).wf(),
    ensures
        final(reg).wf(),
        b == old(reg)@.sessions.contains_key(id as int),
        final(reg)@ == (RegistryM { sessions: old(reg)@.sessions.remove(id as int), ..old(reg)@ }),
{
    let r = take_session(reg, id);
    r.is_some()
}

/// The ids of the live sessions, in increasing order.
pub fn session_ids(reg: &Registry) -> (v: Vec<u64>)
    requires
        reg.wf(),
    ensures
        forall|a: int, b: int| 0 <= a < b < v@.len() ==> #[trigger] v@[a] < #[trigger] v@[b],
        forall|id: int| reg@.sessions.contains_key(id) <==> exists|i: int| 0 <= i < v@.len() && v@[i] == id,
{
    let n = reg.sessions.entry_count();
    let mut v: Vec<u64> = Vec::new();
    let mut i: usize = 0;
    while i < n
        invariant
            reg.wf(),
            n == reg.sessions.entries@.len(),
            i <= n,
            v@.len() == i,
            forall|j: int| 0 <= j < i ==> key_of(#[trigger] v@[j] as int) == reg.sessions.entries@[j].0,
        decreases n - i,
    {
        let k = reg.sessions.key_at(i);
        v.push(id_exec(k));
        i = i + 1;
    }
    proof {
        let es = reg.sessions.entries@;
        assert forall|a: int, b: int| 0 <= a < b < v@.len() implies #[trigger] v@[a] < #[trigger] v@[b] by {
            assert(es[a].0 < es[b].0);
            assert(key_of(v@[a] as int) == es[a].0);
            assert(key_of(v@[b] as int) == es[b].0);
        }
        assert forall|id: int| reg@.sessions.contains_key(id) implies exists|i: int| 0 <= i < v@.len() && v@[i] == id by {
            let kk = key_of(id);
            assert(reg.sessions@.contains_key(kk));
            let j = choose|j: int| 0 <= j < es.len() && es[j].0 == kk;
            assert(key_of(v@[j] as int) == kk);
            assert(v@[j] == id);
        }
        assert forall|id: int| (exists|i: int| 0 <= i < v@.len() && v@[i] == id) implies reg@.sessions.contains_key(id) by {
            let j = choose|j: int| 0 <= j < v@.len() && v@[j] == id;
            assert(key_of(v@[j] as int) == es[j].0);
            assert(0 <= j < es.len() && es[j].0 == key_of(id));
            assert(reg.sessions@.contains_key(key_of(id)));
        }
    }
    v
}

} // verus!
