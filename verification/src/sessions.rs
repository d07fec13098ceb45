//! The store of connected client sessions and which one is active.

use vstd::prelude::*;

use crate::protocol::messages::{SessionId, SessionInfo};

verus! {

/// Why a session-store request was refused.
#[derive(Debug, Clone, Copy, PartialEq, Eq, Structural)]
pub enum SessionError {
    /// The id could not be found in the sessions store.
    InvalidId,
}

/// One stored session: what the store reports about it, and the session itself.
#[derive(Debug)]
pub struct SessionSlot<S> {
    pub id: SessionId,
    pub username: Option<String>,
    pub peer: String,
    pub security_level: u8,
    pub session: S,
}

/// Holds all of the current sessions, and keeps track of the active one.
#[derive(Debug)]
pub struct SessionsHolder<S> {
    store: Vec<SessionSlot<S>>,
    current: Option<SessionId>,
}

/// The index of the first slot with `id`, if any.
pub open spec fn first_index<S>(store: Seq<SessionSlot<S>>, id: SessionId) -> Option<int>
    decreases store.len(),
{
    if store.len() == 0 {
        None
    } else {
        match first_index(store.drop_last(), id) {
            Some(i) => Some(i),
            None => if store.last().id == id {
                Some(store.len() - 1)
            } else {
                None
            },
        }
    }
}

/// What `first_index` finds: the earliest slot with the id.
pub proof fn lemma_first_index<S>(store: Seq<SessionSlot<S>>, id: SessionId)
    ensures
        match first_index(store, id) {
            Some(i) => 0 <= i < store.len() && store[i].id == id && forall|j: int|
                0 <= j < i ==> store[j].id != id,
            None => forall|j: int| 0 <= j < store.len() ==> store[j].id != id,
        },
    decreases store.len(),
{
    if store.len() > 0 {
        let init = store.drop_last();
        lemma_first_index(init, id);
        assert(forall|j: int| 0 <= j < init.len() ==> init[j] == store[j]);
    }
}

/// The report for the slot `slot` of a store whose active session is `current`.
pub open spec fn spec_info<S>(slot: SessionSlot<S>, current: Option<SessionId>) -> SessionInfo {
    SessionInfo {
        id: slot.id,
        username: slot.username,
        peer: slot.peer,
        active: current == Some(slot.id),
        security_level: slot.security_level,
    }
}

/// A session is reported active exactly when it is the store's active one:
/// with no active session, none is.
pub proof fn lemma_reported_active_exactly_when_current<S>(slot: SessionSlot<S>, current: Option<SessionId>)
    ensures
        spec_info(slot, current).id == slot.id,
        spec_info(slot, current).active <==> current == Some(slot.id),
        current is None ==> !spec_info(slot, current).active,
{
}

impl<S> SessionsHolder<S> {
    /// The stored sessions, in the order they were inserted.
    pub closed spec fn slots(&self) -> Seq<SessionSlot<S>> {
        self.store@
    }

    /// The active session's id, if any.
    pub closed spec fn current_id(&self) -> Option<SessionId> {
        self.current
    }

    /// An empty store with no active session.
    pub fn new() -> (r: Self)
        ensures
            r.slots() == Seq::<SessionSlot<S>>::empty(),
            r.current_id() is None,
    {
        SessionsHolder { store: Vec::new(), current: None }
    }

    /// The active session's id.
    pub fn current_session_id(&self) -> (r: Option<SessionId>)
        ensures
            r == self.current_id(),
    {
        self.current
    }

    fn position(&self, id: SessionId) -> (r: Option<usize>)
        ensures
            match r {
                Some(i) => first_index(self.slots(), id) == Some(i as int) && i < self.slots().len()
                    && self.slots()[i as int].id == id,
                None => first_index(self.slots(), id) is None,
            },
    {
        proof {
            lemma_first_index(self.store@, id);
        }
        let mut i: usize = 0;
        while i < self.store.len()
            invariant
                i <= self.store@.len(),
                forall|j: int| 0 <= j < i ==> self.store@[j].id != id,
                match first_index(self.store@, id) {
                    Some(f) => 0 <= f < self.store@.len() && self.store@[f].id == id && forall|j: int|
                        0 <= j < f ==> self.store@[j].id != id,
                    None => forall|j: int| 0 <= j < self.store@.len() ==> self.store@[j].id != id,
                },
            decreases self.store@.len() - i,
        {
            if self.store[i].id == id {
                return Some(i);
            }
            i = i + 1;
        }
        None
    }

    /// The first stored slot with `id`.
    pub fn find(&self, id: SessionId) -> (r: Option<&SessionSlot<S>>)
        ensures
            match first_index(self.slots(), id) {
                Some(i) => r == Some(&self.slots()[i]),
                None => r is None,
            },
    {
        match self.position(id) {
            Some(i) => Some(&self.store[i]),
            None => None,
        }
    }

    /// The active session's slot, if the active id is stored.
    pub fn current(&self) -> (r: Option<&SessionSlot<S>>)
        ensures
            match self.current_id() {
                Some(id) => match first_index(self.slots(), id) {
                    Some(i) => r == Some(&self.slots()[i]),
                    None => r is None,
                },
                None => r is None,
            },
    {
        match self.current {
            Some(id) => self.find(id),
            None => None,
        }
    }

    /// The first stored slot with `id`, mutably; the rest of the store is
    /// left as it was.
    pub fn find_mut(&mut self, id: SessionId) -> (r: Option<&mut SessionSlot<S>>)
        ensures
            final(self).current_id() == old(self).current_id(),
            match first_index(old(self).slots(), id) {
                Some(i) => r matches Some(slot) && *slot == old(self).slots()[i]
                    && final(self).slots() == old(self).slots().update(i, *final(slot)),
                None => r is None && final(self).slots() == old(self).slots(),
            },
    {
        match self.position(id) {
            Some(i) => Some(&mut self.store[i]),
            None => None,
        }
    }

    /// Add a session, making it active when it is the only one stored.
    pub fn insert(&mut self, slot: SessionSlot<S>)
        ensures
            final(self).slots() == old(self).slots().push(slot),
            final(self).current_id() == if old(self).slots().len() == 0 {
                Some(slot.id)
            } else {
                old(self).current_id()
            },
    {
        let id = slot.id;
        self.store.push(slot);
        if self.store.len() == 1 {
            if self.current != Some(id) {
                self.current = Some(id);
            }
        }
    }

    /// Remove the first stored session with `id`, clearing the active slot if
    /// it was the active one.
    pub fn remove(&mut self, id: SessionId) -> (r: Option<SessionSlot<S>>)
        ensures
            match first_index(old(self).slots(), id) {
                Some(i) => {
                    &&& r == Some(old(self).slots()[i])
                    &&& final(self).slots() == old(self).slots().remove(i)
                    &&& final(self).current_id() == if old(self).current_id() == Some(id) {
                        None
                    } else {
                        old(self).current_id()
                    }
                },
                None => r is None && final(self).slots() == old(self).slots()
                    && final(self).current_id() == old(self).current_id(),
            },
    {
        match self.position(id) {
            Some(i) => {
                if self.current == Some(id) {
                    self.current = None;
                }
                Some(self.store.remove(i))
            },
            None => None,
        }
    }

    /// Describe the first stored session with `id`.
    pub fn info(&self, id: SessionId) -> (r: Option<SessionInfo>)
        ensures
            match first_index(self.slots(), id) {
                Some(i) => r == Some(spec_info(self.slots()[i], self.current_id())),
                None => r is None,
            },
            r matches Some(report) ==> report.id == id && (report.active <==> self.current_id() == Some(id)),
    {
        proof {
            lemma_first_index(self.slots(), id);
            if let Some(i) = first_index(self.slots(), id) {
                lemma_reported_active_exactly_when_current(self.slots()[i], self.current_id());
            }
        }
        match self.position(id) {
            Some(i) => {
                let slot = &self.store[i];
                Some(
                    SessionInfo {
                        id: slot.id,
                        username: slot.username.clone(),
                        peer: slot.peer.clone(),
                        active: self.current == Some(slot.id),
                        security_level: slot.security_level,
                    },
                )
            },
            None => None,
        }
    }

    /// Describe every stored session, in store order.
    pub fn list(&self) -> (r: Vec<SessionInfo>)
        ensures
            r@.len() == self.slots().len(),
            forall|k: int|
                #![trigger r@[k]]
                0 <= k < r@.len() ==> {
                    let i = first_index(self.slots(), self.slots()[k].id)->0;
                    r@[k] == spec_info(self.slots()[i], self.current_id())
                },
            forall|k: int|
                0 <= k < r@.len() ==> #[trigger] r@[k].id == self.slots()[k].id && (r@[k].active
                    <==> self.current_id() == Some(self.slots()[k].id)),
    {
        let mut out: Vec<SessionInfo> = Vec::new();
        let mut k: usize = 0;
        while k < self.store.len()
            invariant
                k <= self.store@.len(),
                out@.len() == k,
                forall|m: int|
                    #![trigger out@[m]]
                    0 <= m < k ==> {
                        let i = first_index(self.slots(), self.slots()[m].id)->0;
                        out@[m] == spec_info(self.slots()[i], self.current_id())
                    },
                forall|m: int|
                    0 <= m < k ==> #[trigger] out@[m].id == self.slots()[m].id && (out@[m].active
                        <==> self.current_id() == Some(self.slots()[m].id)),
            decreases self.store@.len() - k,
        {
            proof {
                lemma_first_index(self.store@, self.store@[k as int].id);
            }
            let info = self.info(self.store[k].id);
            match info {
                Some(info) => out.push(info),
                None => {},
            }
            k = k + 1;
        }
        out
    }

    /// Make the session with `id` active (or none), refusing an id that is not
    /// stored; answers with the id now active.
    pub fn set_current(&mut self, id: Option<SessionId>) -> (r: Result<Option<SessionId>, SessionError>)
        ensures
            final(self).slots() == old(self).slots(),
            match id {
                Some(want) => if old(self).current_id() == id || first_index(
                    old(self).slots(),
                    want,
                ) is Some {
                    r == Ok::<Option<SessionId>, SessionError>(id) && final(self).current_id() == id
                } else {
                    r == Err::<Option<SessionId>, SessionError>(SessionError::InvalidId)
                        && final(self).current_id() == old(self).current_id()
                },
                None => r == Ok::<Option<SessionId>, SessionError>(None) && final(self).current_id() is None,
            },
    {
        if self.current == id {
            return Ok(id);
        }
        if let Some(want) = id {
            if self.position(want).is_none() {
                return Err(SessionError::InvalidId);
            }
        }
        self.current = id;
        Ok(id)
    }
}

} // verus!
