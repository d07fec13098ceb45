use vstd::prelude::*;

use crate::protocol::value::{DomId, DomValue};

verus! {

/// One operation the client applies against the live game.
#[derive(Clone, Debug, PartialEq)]
pub enum Operation {
    Rename { node: DomId, name: String },
    Delete { node: DomId },
    Move { node: DomId, parent: Option<DomId> },
    Create { parent: DomId, class: String },
    AddTag { node: DomId, tag: String },
    RemoveTag { node: DomId, tag: String },
    SetProperty { node: DomId, name: String, value: DomValue },
    SetAttribute { node: DomId, name: String, value: DomValue },
    RemoveAttribute { node: DomId, name: String },
    RenameAttribute { node: DomId, old: String, new: String },
    /// `properties` is the exact list of property names the client should read,
    /// empty when the class is unknown.
    GetProperties { node: DomId, properties: Vec<String> },
    RunCode { source: String },
}

/// The outcome the client reports for a relayed [`Operation`].
#[derive(Clone, Debug, PartialEq)]
pub enum OpResult {
    Done,
    Reads(Reads),
    Failed(String),
    Output(String),
}

/// A node's raw properties, tags, and attributes.
#[derive(Clone, Debug, PartialEq)]
pub struct Reads {
    pub properties: Vec<NamedValue>,
    pub tags: Vec<String>,
    pub attributes: Vec<NamedValue>,
}

/// One `name -> value` read.
#[derive(Clone, Debug, PartialEq)]
pub struct NamedValue {
    pub name: String,
    pub value: DomValue,
}

/// One enum family of the client's catalog, with its items.
#[derive(Clone, Debug, Default, PartialEq, Eq, Hash, PartialOrd, Ord)]
pub struct EnumFamily {
    pub name: String,
    pub items: Vec<EnumEntry>,
}

/// One `{ name, value }` item of an [`EnumFamily`].
#[derive(Clone, Debug, Default, PartialEq, Eq, Hash, PartialOrd, Ord)]
pub struct EnumEntry {
    pub name: String,
    pub value: u32,
}

impl EnumFamily {
    /// The item whose value is `value`, if any: the first one in catalog order.
    pub fn item(&self, value: u32) -> (r: Option<&EnumEntry>)
        ensures
            match r {
                Some(entry) => exists|i: int|
                    0 <= i < self.items@.len() && self.items@[i] == *entry && entry.value == value
                        && forall|j: int| 0 <= j < i ==> self.items@[j].value != value,
                None => forall|i: int| 0 <= i < self.items@.len() ==> self.items@[i].value != value,
            },
    {
        let mut i: usize = 0;
        while i < self.items.len()
            invariant
                i <= self.items@.len(),
                forall|j: int| 0 <= j < i ==> self.items@[j].value != value,
            decreases self.items@.len() - i,
        {
            if self.items[i].value == value {
                return Some(&self.items[i]);
            }
            i = i + 1;
        }
        None
    }
}

} // verus!
