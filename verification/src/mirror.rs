//! Where a mirror hands lazy-population requests and relayed operations: a
//! sink that only its current owner may clear.

use vstd::prelude::*;

use crate::protocol::value::DomId;

verus! {

/// A fire-and-forget lazy-population request from an upstream for the client
/// to mirror more of the tree.
#[derive(Clone, Debug, PartialEq, Eq, Hash, PartialOrd, Ord)]
pub enum DomRequest {
    /// Mirror a node's immediate children — `None` for the watch root's top level.
    Children(Option<DomId>),
    /// Mirror a single node by id, without its children.
    Node(DomId),
    /// Snapshot a subtree by id — `None` for the whole scope.
    Snapshot(Option<DomId>),
    /// Search `from`'s descendants for `query`, mirroring the matches.
    Search { from: DomId, query: String },
    /// Mirror several nodes by id in one patch.
    Nodes(Vec<DomId>),
}

/// A sink installed by a session (`owner`), which only that owner can clear.
#[derive(Debug)]
pub struct OwnedSink<T> {
    slot: Option<(u32, T)>,
}

impl<T> OwnedSink<T> {
    /// The installed owner and sink, if any.
    pub closed spec fn held(&self) -> Option<(u32, T)> {
        self.slot
    }

    /// Nothing installed.
    pub fn new() -> (r: Self)
        ensures
            r.held() is None,
    {
        OwnedSink { slot: None }
    }

    /// Point the sink at `owner`'s `sink`, replacing whatever was installed.
    pub fn install(&mut self, owner: u32, sink: T)
        ensures
            final(self).held() == Some((owner, sink)),
    {
        self.slot = Some((owner, sink));
    }

    /// Drop the sink if `owner` still holds it; a no-op once another owner
    /// installed its own.
    pub fn clear(&mut self, owner: u32)
        ensures
            final(self).held() == match old(self).held() {
                Some((holder, _)) => if holder == owner {
                    None
                } else {
                    old(self).held()
                },
                None => None,
            },
    {
        let holds = match &self.slot {
            Some((holder, _)) => *holder == owner,
            None => false,
        };
        if holds {
            self.slot = None;
        }
    }

    /// The installed sink, if any.
    pub fn sink(&self) -> (r: Option<&T>)
        ensures
            match self.held() {
                Some((_, sink)) => r == Some(&sink),
                None => r is None,
            },
    {
        match &self.slot {
            Some((_, sink)) => Some(sink),
            None => None,
        }
    }
}

} // verus!
