//! What verde's explorer is sent: nodes of its flat tree, snapshots and
//! incremental edits. Timestamps are `f64` seconds carried as their bits.

use vstd::prelude::*;

verus! {

/// One instance in verde's flat tree representation.
#[derive(Debug, Clone)]
pub struct Node {
    pub id: String,
    pub name: String,
    pub class_name: String,
    /// `None` for the roots (services).
    pub parent_id: Option<String>,
    /// Empty for a shallow node.
    pub children: Vec<String>,
    pub has_children: Option<bool>,
    pub disabled: Option<bool>,
    pub run_context: Option<String>,
}

/// The text of each string.
pub open spec fn texts(v: Seq<String>) -> Seq<Seq<char>> {
    v.map_values(|s: String| s@)
}

/// The text of an optional string.
pub open spec fn opt_text(o: Option<String>) -> Option<Seq<char>> {
    match o {
        Some(s) => Some(s@),
        None => None,
    }
}

/// What a node says.
pub struct NodeV {
    pub id: Seq<char>,
    pub name: Seq<char>,
    pub class_name: Seq<char>,
    pub parent_id: Option<Seq<char>>,
    pub children: Seq<Seq<char>>,
    pub has_children: Option<bool>,
    pub disabled: Option<bool>,
    pub run_context: Option<Seq<char>>,
}

impl View for Node {
    type V = NodeV;

    open spec fn view(&self) -> NodeV {
        NodeV {
            id: self.id@,
            name: self.name@,
            class_name: self.class_name@,
            parent_id: opt_text(self.parent_id),
            children: texts(self.children@),
            has_children: self.has_children,
            disabled: self.disabled,
            run_context: opt_text(self.run_context),
        }
    }
}

/// What each node of a list says.
pub open spec fn nodes_view(v: Seq<Node>) -> Seq<NodeV> {
    v.map_values(|n: Node| n@)
}

/// A whole (or roots-only) tree snapshot.
#[derive(Debug, Clone)]
pub struct Snapshot {
    pub root_ids: Vec<String>,
    pub nodes: Vec<Node>,
}

/// What a snapshot says.
pub struct SnapshotV {
    pub root_ids: Seq<Seq<char>>,
    pub nodes: Seq<NodeV>,
}

impl View for Snapshot {
    type V = SnapshotV;

    open spec fn view(&self) -> SnapshotV {
        SnapshotV { root_ids: texts(self.root_ids@), nodes: nodes_view(self.nodes@) }
    }
}

/// An incremental tree edit within an `explorer_delta`. Each carries the
/// monotonic nanoseconds at which it was made (verde only needs increasing
/// values).
#[derive(Debug, Clone)]
pub enum DeltaOp {
    /// Attach a subtree, under `parent_id` or as a new root.
    AddSubtree {
        timestamp: u64,
        parent_id: Option<String>,
        root_id: String,
        /// Set only for a new root; verde registers the root from it.
        added_root_id: Option<String>,
        nodes: Vec<Node>,
    },
    RemoveNode { timestamp: u64, id: String },
    UpdateNode { timestamp: u64, id: String, name: Option<String>, has_children: Option<bool> },
    MoveNode { timestamp: u64, id: String, new_parent_id: Option<String> },
}

/// What an edit says.
pub enum DeltaV {
    AddSubtree {
        timestamp: u64,
        parent_id: Option<Seq<char>>,
        root_id: Seq<char>,
        added_root_id: Option<Seq<char>>,
        nodes: Seq<NodeV>,
    },
    RemoveNode { timestamp: u64, id: Seq<char> },
    UpdateNode { timestamp: u64, id: Seq<char>, name: Option<Seq<char>>, has_children: Option<bool> },
    MoveNode { timestamp: u64, id: Seq<char>, new_parent_id: Option<Seq<char>> },
}

impl View for DeltaOp {
    type V = DeltaV;

    open spec fn view(&self) -> DeltaV {
        match self {
            DeltaOp::AddSubtree { timestamp, parent_id, root_id, added_root_id, nodes } => DeltaV::AddSubtree {
                timestamp: *timestamp,
                parent_id: opt_text(*parent_id),
                root_id: root_id@,
                added_root_id: opt_text(*added_root_id),
                nodes: nodes_view(nodes@),
            },
            DeltaOp::RemoveNode { timestamp, id } => DeltaV::RemoveNode { timestamp: *timestamp, id: id@ },
            DeltaOp::UpdateNode { timestamp, id, name, has_children } => DeltaV::UpdateNode {
                timestamp: *timestamp,
                id: id@,
                name: opt_text(*name),
                has_children: *has_children,
            },
            DeltaOp::MoveNode { timestamp, id, new_parent_id } => DeltaV::MoveNode {
                timestamp: *timestamp,
                id: id@,
                new_parent_id: opt_text(*new_parent_id),
            },
        }
    }
}

/// What each edit of a list says.
pub open spec fn deltas_view(v: Seq<DeltaOp>) -> Seq<DeltaV> {
    v.map_values(|d: DeltaOp| d@)
}

/// What an edit says, leaving out when it was made.
pub open spec fn unstamped(op: DeltaV) -> DeltaV {
    match op {
        DeltaV::AddSubtree { parent_id, root_id, added_root_id, nodes, .. } => DeltaV::AddSubtree {
            timestamp: 0,
            parent_id,
            root_id,
            added_root_id,
            nodes,
        },
        DeltaV::RemoveNode { id, .. } => DeltaV::RemoveNode { timestamp: 0, id },
        DeltaV::UpdateNode { id, name, has_children, .. } => DeltaV::UpdateNode {
            timestamp: 0,
            id,
            name,
            has_children,
        },
        DeltaV::MoveNode { id, new_parent_id, .. } => DeltaV::MoveNode { timestamp: 0, id, new_parent_id },
    }
}

/// What each edit of a list says, leaving out when it was made.
pub open spec fn unstamped_view(v: Seq<DeltaOp>) -> Seq<DeltaV> {
    v.map_values(|d: DeltaOp| unstamped(d@))
}

/// The edit attaching the subtree `nodes` rooted at `root_id`.
pub open spec fn spec_add_subtree(
    timestamp: u64,
    parent_id: Option<Seq<char>>,
    root_id: Seq<char>,
    nodes: Seq<NodeV>,
) -> DeltaV {
    DeltaV::AddSubtree {
        timestamp,
        parent_id,
        root_id,
        added_root_id: if parent_id is None {
            Some(root_id)
        } else {
            None
        },
        nodes,
    }
}

impl DeltaOp {
    /// Attach `nodes` as the subtree rooted at `root_id`; a parentless subtree
    /// is a new root, which verde registers through `added_root_id`.
    pub fn add_subtree(timestamp: u64, parent_id: Option<String>, root_id: String, nodes: Vec<Node>) -> (r: Self)
        ensures
            r@ == spec_add_subtree(timestamp, opt_text(parent_id), root_id@, nodes_view(nodes@)),
    {
        let added_root_id = if parent_id.is_none() {
            Some(root_id.clone())
        } else {
            None
        };
        DeltaOp::AddSubtree { timestamp, parent_id, root_id, added_root_id, nodes }
    }

    /// Drop the node `id` from verde's tree.
    pub fn remove_node(timestamp: u64, id: String) -> (r: Self)
        ensures
            r@ == (DeltaV::RemoveNode { timestamp, id: id@ }),
    {
        DeltaOp::RemoveNode { timestamp, id }
    }

    /// Show the node `id` under a new name.
    pub fn rename(timestamp: u64, id: String, name: String) -> (r: Self)
        ensures
            r@ == (DeltaV::UpdateNode { timestamp, id: id@, name: Some(name@), has_children: None }),
    {
        DeltaOp::UpdateNode { timestamp, id, name: Some(name), has_children: None }
    }

    /// Set whether the node `id` shows as expandable.
    pub fn has_children(timestamp: u64, id: String, has_children: bool) -> (r: Self)
        ensures
            r@ == (DeltaV::UpdateNode { timestamp, id: id@, name: None, has_children: Some(has_children) }),
    {
        DeltaOp::UpdateNode { timestamp, id, name: None, has_children: Some(has_children) }
    }

    /// Move the node `id` under `new_parent_id` (`None`: make it a root).
    pub fn move_node(timestamp: u64, id: String, new_parent_id: Option<String>) -> (r: Self)
        ensures
            r@ == (DeltaV::MoveNode { timestamp, id: id@, new_parent_id: opt_text(new_parent_id) }),
    {
        DeltaOp::MoveNode { timestamp, id, new_parent_id }
    }
}

/// Whether `t` is among `list`.
pub fn contains_text(list: &Vec<String>, t: &String) -> (r: bool)
    ensures
        r == texts(list@).contains(t@),
{
    let mut i: usize = 0;
    while i < list.len()
        invariant
            i <= list@.len(),
            forall|j: int| 0 <= j < i ==> list@[j]@ != t@,
        decreases list@.len() - i,
    {
        if list[i] == *t {
            assert(texts(list@)[i as int] == t@);
            return true;
        }
        i = i + 1;
    }
    proof {
        if texts(list@).contains(t@) {
            let j = choose|j: int| 0 <= j < texts(list@).len() && texts(list@)[j] == t@;
            assert(list@[j]@ == t@);
        }
    }
    false
}

/// Why a verde connection stopped serving a session.
#[derive(Debug, Clone, Copy, PartialEq, Eq, Structural)]
pub enum Served {
    /// The active session changed; rebuild for the new one.
    Switched,
    /// The socket closed or fell idle; drop the connection.
    Closed,
}

} // verus!
