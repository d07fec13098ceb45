use vstd::prelude::*;

use crate::protocol::value::{DomId, DomValue};

verus! {

/// One instance the client mirrors into the broker, with its identity, place
/// in the tree and values.
#[derive(Clone, Debug)]
pub struct DomInstance {
    pub id: DomId,
    pub parent: Option<DomId>,
    pub class: String,
    pub name: String,
    /// Whether the *live* instance has any children (independent of whether
    /// they are mirrored yet).
    pub has_children: bool,
    pub properties: Vec<(String, DomValue)>,
    pub attributes: Vec<(String, DomValue)>,
    pub tags: Option<Vec<String>>,
}

/// A lazy, incremental update to a mirrored DOM.
#[derive(Clone, Debug)]
pub struct DomPatch {
    /// Add a new instance, or refresh it.
    pub upserts: Vec<DomInstance>,
    /// The ids of nodes to remove (with their subtrees).
    pub removals: Vec<DomId>,
    /// Property/attribute/tag-only changes to already-mirrored instances.
    pub updates: Vec<DomUpdate>,
}

/// How a [`DomUpdate`] touches the stored tag set.
#[derive(Clone, Debug, PartialEq)]
pub enum TagChange {
    /// Leave the stored tags alone.
    Keep,
    /// Replace the stored set wholesale (an empty list clears it).
    Replace(Vec<String>),
    /// Add and remove individual tags, leaving the rest untouched.
    Delta { add: Vec<String>, remove: Vec<String> },
}

impl Default for TagChange {
    fn default() -> (r: Self)
        ensures
            r is Keep,
    {
        TagChange::Keep
    }
}

/// A lightweight change to an *already-mirrored* instance: `None` values remove
/// the key.
#[derive(Clone, Debug, Default)]
pub struct DomUpdate {
    pub id: DomId,
    pub properties: Vec<(String, Option<DomValue>)>,
    pub attributes: Vec<(String, Option<DomValue>)>,
    pub tags: TagChange,
}

} // verus!
