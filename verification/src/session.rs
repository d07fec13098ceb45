//! The decisions of one client session: what each client message asks the
//! broker to do, and how relayed operations are correlated with their results.

use vstd::prelude::*;

use crate::mirror::DomRequest;
use crate::protocol::dom::DomPatch;
use crate::protocol::messages::{ClientMessage, ServerMessage, SessionId};
use crate::protocol::operation::{EnumFamily, OpResult, Operation};
use crate::upstream::Upstream;

verus! {

/// Follow-up work a handled message defers to the caller, for anything that
/// re-enters the sessions lock the caller is already holding.
#[derive(Copy, Clone, Debug, PartialEq, Eq, Structural)]
pub enum PostHandle {
    Nothing,
    /// Make this session the active (forwarded) one.
    Activate(SessionId),
}

impl Default for PostHandle {
    fn default() -> (r: Self)
        ensures
            r == PostHandle::Nothing,
    {
        PostHandle::Nothing
    }
}

/// What the broker must do for one client message.
#[derive(Debug)]
pub enum Handled<R> {
    /// Shut the broker down.
    Shutdown,
    /// Switch an upstream, and confirm with `reply`.
    SetUpstream { upstream: Upstream, enabled: bool, reply: ServerMessage },
    /// Merge the patch into the session's mirror.
    ApplyPatch(DomPatch),
    /// Store the client's enum catalog.
    SetCatalog(Vec<EnumFamily>),
    /// Hand `result` to whoever relayed operation `id`.
    Deliver { id: u32, reply: R, result: OpResult },
    /// A result for an operation nobody is waiting on: drop it.
    UnknownResult(u32),
    /// The follow-up the caller runs after releasing the sessions lock.
    Post(PostHandle),
    /// A control-only message on a syncing connection: ignore it.
    IgnoreControl,
}

/// The index of the pending entry for `id`, if any.
pub open spec fn pending_index<R>(pending: Seq<(u32, R)>, id: u32) -> Option<int> {
    if exists|i: int| 0 <= i < pending.len() && pending[i].0 == id {
        Some(choose|i: int| 0 <= i < pending.len() && pending[i].0 == id)
    } else {
        None
    }
}

/// No operation id is pending twice.
pub open spec fn ids_unique<R>(pending: Seq<(u32, R)>) -> bool {
    forall|i: int, j: int|
        0 <= i < pending.len() && 0 <= j < pending.len() && i != j ==> pending[i].0 != pending[j].0
}

/// A session's operation bookkeeping: the operations relayed to its client that
/// still await a result, and the id the next one gets.
#[derive(Debug)]
pub struct SessionCore<R> {
    id: SessionId,
    pending: Vec<(u32, R)>,
    next_op_id: u32,
}

impl<R> SessionCore<R> {
    /// The relayed operations still awaiting a result, with their reply handles.
    pub closed spec fn pending(&self) -> Seq<(u32, R)> {
        self.pending@
    }

    /// The session this bookkeeping belongs to.
    pub closed spec fn session_id(&self) -> SessionId {
        self.id
    }

    /// The session's id.
    pub fn id(&self) -> (r: SessionId)
        ensures
            r == self.session_id(),
    {
        self.id
    }

    /// The id the next relayed operation gets.
    pub closed spec fn next_id(&self) -> u32 {
        self.next_op_id
    }

    #[verifier::type_invariant]
    closed spec fn wf(&self) -> bool {
        ids_unique(self.pending@)
    }

    /// A session with nothing relayed yet.
    pub fn new(id: SessionId) -> (r: Self)
        ensures
            r.session_id() == id,
            r.pending() == Seq::<(u32, R)>::empty(),
            r.next_id() == 0,
    {
        SessionCore { id, pending: Vec::new(), next_op_id: 0 }
    }

    fn take_pending(&mut self, id: u32) -> (r: Option<R>)
        ensures
            final(self).session_id() == old(self).session_id(),
            final(self).next_id() == old(self).next_id(),
            match pending_index(old(self).pending(), id) {
                Some(i) => r == Some(old(self).pending()[i].1) && final(self).pending() == old(
                    self,
                ).pending().remove(i),
                None => r is None && final(self).pending() == old(self).pending(),
            },
    {
        proof {
            use_type_invariant(&*self);
        }
        let mut i: usize = 0;
        while i < self.pending.len()
            invariant
                *self == *old(self),
                ids_unique(self.pending@),
                i <= self.pending@.len(),
                forall|j: int| 0 <= j < i ==> self.pending@[j].0 != id,
            decreases self.pending@.len() - i,
        {
            if self.pending[i].0 == id {
                proof {
                    assert(pending_index(self.pending@, id) == Some(i as int));
                }
                let mut rest: Vec<(u32, R)> = Vec::new();
                std::mem::swap(&mut rest, &mut self.pending);
                let (_, reply) = rest.remove(i);
                proof {
                    assert forall|a: int, b: int|
                        0 <= a < rest@.len() && 0 <= b < rest@.len() && a != b implies rest@[a].0
                        != rest@[b].0 by {
                        let oa = if a < i { a } else { a + 1 };
                        let ob = if b < i { b } else { b + 1 };
                        assert(rest@[a] == old(self).pending@[oa]);
                        assert(rest@[b] == old(self).pending@[ob]);
                    }
                }
                self.pending = rest;
                return Some(reply);
            }
            i = i + 1;
        }
        None
    }

    /// Record a relayed operation under the next id and answer with the message
    /// that carries it to the client; the id counter wraps around, and a reply
    /// handle left under a reused id is dropped for the new one.
    pub fn dispatch_operation(&mut self, operation: Operation, reply: R) -> (r: ServerMessage)
        ensures
            final(self).session_id() == old(self).session_id(),
            r == (ServerMessage::Operation { id: old(self).next_id(), op: operation }),
            final(self).next_id() == (if old(self).next_id() == u32::MAX {
                0
            } else {
                (old(self).next_id() + 1) as u32
            }),
            pending_index(final(self).pending(), old(self).next_id()) is Some,
            final(self).pending().last() == (old(self).next_id(), reply),
            final(self).pending() == match pending_index(old(self).pending(), old(self).next_id()) {
                Some(i) => old(self).pending().remove(i),
                None => old(self).pending(),
            }.push((old(self).next_id(), reply)),
    {
        proof {
            use_type_invariant(&*self);
        }
        let id = self.next_op_id;
        self.next_op_id = self.next_op_id.wrapping_add(1);
        let _ = self.take_pending(id);
        proof {
            use_type_invariant(&*self);
        }
        let mut rest: Vec<(u32, R)> = Vec::new();
                std::mem::swap(&mut rest, &mut self.pending);
        rest.push((id, reply));
        proof {
            assert(rest@.last() == (id, reply));
            assert(pending_index(rest@, id) is Some) by {
                assert(rest@[rest@.len() - 1].0 == id);
            }
        }
        self.pending = rest;
        ServerMessage::Operation { id, op: operation }
    }

    /// Decide what one client message asks of the broker, settling an
    /// operation result against the pending relays.
    pub fn handle(&mut self, message: ClientMessage) -> (r: Handled<R>)
        ensures
            final(self).session_id() == old(self).session_id(),
            final(self).next_id() == old(self).next_id(),
            match message {
                ClientMessage::OperationResult { id, result } => match pending_index(
                    old(self).pending(),
                    id,
                ) {
                    Some(i) => r == (Handled::Deliver { id, reply: old(self).pending()[i].1, result })
                        && final(self).pending() == old(self).pending().remove(i),
                    None => r == Handled::<R>::UnknownResult(id) && final(self).pending() == old(
                        self,
                    ).pending(),
                },
                _ => final(self).pending() == old(self).pending() && r == match message {
                    ClientMessage::Shutdown => Handled::Shutdown,
                    ClientMessage::SetUpstream { upstream, enabled } => Handled::SetUpstream {
                        upstream,
                        enabled,
                        reply: ServerMessage::UpstreamChanged { upstream, enabled },
                    },
                    ClientMessage::UpdateDom(patch) => Handled::ApplyPatch(patch),
                    ClientMessage::EnumFamilies(families) => Handled::SetCatalog(families),
                    ClientMessage::RequestActive => Handled::Post(PostHandle::Activate(old(self).session_id())),
                    _ => Handled::<R>::IgnoreControl,
                },
            },
    {
        match message {
            ClientMessage::Shutdown => Handled::Shutdown,
            ClientMessage::SetUpstream { upstream, enabled } => Handled::SetUpstream {
                upstream,
                enabled,
                reply: ServerMessage::UpstreamChanged { upstream, enabled },
            },
            ClientMessage::UpdateDom(patch) => Handled::ApplyPatch(patch),
            ClientMessage::EnumFamilies(families) => Handled::SetCatalog(families),
            ClientMessage::OperationResult { id, result } => match self.take_pending(id) {
                Some(reply) => Handled::Deliver { id, reply, result },
                None => Handled::UnknownResult(id),
            },
            ClientMessage::RequestActive => Handled::Post(PostHandle::Activate(self.id)),
            ClientMessage::SwapActive(..) | ClientMessage::ListSessions => Handled::IgnoreControl,
        }
    }
}

/// The message that relays a lazy dom-population request to the client.
pub fn dom_request_message(request: DomRequest) -> (r: ServerMessage)
    ensures
        r == match request {
            DomRequest::Children(id) => ServerMessage::RequestChildren(id),
            DomRequest::Node(id) => ServerMessage::RequestNode(id),
            DomRequest::Snapshot(id) => ServerMessage::RequestSnapshot(id),
            DomRequest::Search { from, query } => ServerMessage::Search { from, query },
            DomRequest::Nodes(ids) => ServerMessage::RequestNodes(ids),
        },
{
    match request {
        DomRequest::Children(id) => ServerMessage::RequestChildren(id),
        DomRequest::Node(id) => ServerMessage::RequestNode(id),
        DomRequest::Snapshot(id) => ServerMessage::RequestSnapshot(id),
        DomRequest::Search { from, query } => ServerMessage::Search { from, query },
        DomRequest::Nodes(ids) => ServerMessage::RequestNodes(ids),
    }
}

} // verus!
