//! What verde currently mirrors of the session's tree, and the edits that keep
//! it up to date.

use vstd::prelude::*;

use crate::dom::{id_pos, key_of, lemma_id_pos, lemma_key_at, node_of, NodeView, SessionDom};
use crate::verde::explorer::{
    contains_text, nodes_view, spec_add_subtree, texts, unstamped, unstamped_view, DeltaOp, DeltaV, Node, NodeV,
    Snapshot,
};
use crate::clock::nanos_since;
use std::time::Instant;
use crate::dom::{expandable, parent_id_of, DomChange};
use crate::verde::serialize::{children_of, shallow_node, shallow_view};
use crate::verde::explorer::{SnapshotV};

verus! {

/// Appending `v` adds exactly `v` to what a list contains.
pub proof fn lemma_push_contains(s: Seq<Seq<char>>, v: Seq<char>)
    ensures
        forall|x: Seq<char>| #[trigger] s.push(v).contains(x) == (s.contains(x) || x == v),
{
    let grown = s.push(v);
    assert forall|x: Seq<char>| #[trigger] grown.contains(x) == (s.contains(x) || x == v) by {
        if grown.contains(x) {
            let j = choose|j: int| 0 <= j < grown.len() && grown[j] == x;
            if j < s.len() {
                assert(s[j] == x);
            }
        }
        if s.contains(x) {
            let j = choose|j: int| 0 <= j < s.len() && s[j] == x;
            assert(grown[j] == x);
        }
        if x == v {
            assert(grown[s.len() as int] == x);
        }
    }
}

/// A set of client ids.
#[derive(Debug)]
pub struct IdSet {
    items: Vec<String>,
}

impl IdSet {
    /// The ids in the set.
    pub closed spec fn ids(&self) -> Set<Seq<char>> {
        Set::new(|x: Seq<char>| texts(self.items@).contains(x))
    }

    /// An empty set.
    pub fn new() -> (r: Self)
        ensures
            r.ids() == Set::<Seq<char>>::empty(),
    {
        let r = IdSet { items: Vec::new() };
        assert(r.ids() =~= Set::<Seq<char>>::empty());
        r
    }

    /// Whether `id` is in the set.
    pub fn contains(&self, id: &str) -> (r: bool)
        ensures
            r == self.ids().contains(id@),
    {
        let id = id.to_owned();
        contains_text(&self.items, &id)
    }

    /// Add `id`.
    pub fn insert(&mut self, id: String)
        ensures
            final(self).ids() == old(self).ids().insert(id@),
    {
        let ghost before = texts(self.items@);
        if !contains_text(&self.items, &id) {
            self.items.push(id);
            assert(texts(self.items@) == before.push(id@)) by {
                assert(texts(self.items@) =~= before.push(id@));
            }
            proof {
                lemma_push_contains(before, id@);
            }
        }
        assert(self.ids() =~= old(self).ids().insert(id@));
    }

    /// Remove `id`; whether it was there.
    pub fn remove(&mut self, id: &str) -> (r: bool)
        ensures
            r == old(self).ids().contains(id@),
            final(self).ids() == old(self).ids().remove(id@),
    {
        let id = id.to_owned();
        let found = contains_text(&self.items, &id);
        let mut all: Vec<String> = Vec::new();
        std::mem::swap(&mut all, &mut self.items);
        let ghost source = texts(all@);
        let mut kept: Vec<String> = Vec::new();
        let mut i: usize = 0;
        while i < all.len()
            invariant
                source == texts(all@),
                i <= all@.len(),
                forall|x: Seq<char>|
                    #![trigger texts(kept@).contains(x)]
                    texts(kept@).contains(x) == (x != id@ && source.take(i as int).contains(x)),
            decreases all@.len() - i,
        {
            let ghost before = texts(kept@);
            proof {
                let next = source.take(i + 1);
                let prev = source.take(i as int);
                let last = source[i as int];
                assert(next =~= prev.push(last));
                assert forall|x: Seq<char>| #![trigger next.contains(x)]
                    next.contains(x) == (prev.contains(x) || x == last) by {
                    if next.contains(x) {
                        let j = choose|j: int| 0 <= j < next.len() && next[j] == x;
                        if j < prev.len() {
                            assert(prev[j] == x);
                        }
                    }
                    if prev.contains(x) {
                        let j = choose|j: int| 0 <= j < prev.len() && prev[j] == x;
                        assert(next[j] == x);
                    }
                    if x == last {
                        assert(next[prev.len() as int] == x);
                    }
                }
            }
            if all[i] != id {
                kept.push(all[i].clone());
                assert(texts(kept@) =~= before.push(source[i as int]));
                proof {
                    lemma_push_contains(before, source[i as int]);
                }
            }
            i = i + 1;
        }
        assert(source.take(all@.len() as int) =~= source);
        self.items = kept;
        assert(self.ids() =~= old(self).ids().remove(id@));
        found
    }

    /// Empty the set.
    pub fn clear(&mut self)
        ensures
            final(self).ids() == Set::<Seq<char>>::empty(),
    {
        self.items = Vec::new();
        assert(self.ids() =~= Set::<Seq<char>>::empty());
    }

    /// A set holding the same ids.
    pub fn duplicate(&self) -> (r: Self)
        ensures
            r.ids() == self.ids(),
    {
        let mut items: Vec<String> = Vec::new();
        let mut i: usize = 0;
        while i < self.items.len()
            invariant
                i <= self.items@.len(),
                texts(items@) == texts(self.items@).take(i as int),
            decreases self.items@.len() - i,
        {
            let ghost before = items@;
            let copy = self.items[i].clone();
            assert(copy@ == texts(self.items@)[i as int]);
            items.push(copy);
            assert(texts(items@) =~= texts(before).push(copy@));
            assert(texts(self.items@).take(i + 1) =~= texts(self.items@).take(i as int).push(copy@));
            i = i + 1;
        }
        assert(texts(self.items@).take(self.items@.len() as int) =~= texts(self.items@));
        let r = IdSet { items };
        assert(r.ids() =~= self.ids());
        r
    }
}

/// Tracks what verde currently mirrors: the nodes it has, the nodes whose
/// children it has been sent, and the edits not yet flushed to it.
#[derive(Debug)]
pub struct TreeState {
    pub known: IdSet,
    pub loaded: IdSet,
    pub delta_buf: Vec<DeltaOp>,
    pub added_roots: Vec<String>,
}

/// What the tree state holds.
pub struct TreeV {
    pub known: Set<Seq<char>>,
    pub loaded: Set<Seq<char>>,
    pub buf: Seq<DeltaV>,
    pub roots: Seq<Seq<char>>,
}

/// The edit attaching the mirrored node with `key`, client id `id`, alone
/// under `parent`.
pub open spec fn attach(s: Seq<NodeView>, key: u64, id: Seq<char>, parent: Option<Seq<char>>) -> DeltaV {
    spec_add_subtree(0, parent, id, seq![shallow_view(s, key)])
}

/// Newly mirrored ids: a root is always sent, a node under a parent verde
/// knows is attached there (marking the parent loaded), any other waits.
pub open spec fn tr_added(s: Seq<NodeView>, st: TreeV, ids: Seq<String>) -> TreeV
    decreases ids.len(),
{
    if ids.len() == 0 {
        st
    } else {
        let before = tr_added(s, st, ids.drop_last());
        let id = ids.last()@;
        match key_of(s, id) {
            None => before,
            Some(k) => match parent_id_of(s, k) {
                None => TreeV {
                    buf: before.buf.push(attach(s, k, id, None)),
                    roots: before.roots.push(id),
                    known: before.known.insert(id),
                    ..before
                },
                Some(p) => if before.known.contains(p) {
                    TreeV {
                        buf: before.buf.push(attach(s, k, id, Some(p))),
                        known: before.known.insert(id),
                        loaded: before.loaded.insert(p),
                        ..before
                    }
                } else {
                    before
                },
            },
        }
    }
}

/// Removed ids verde knows are dropped from its tree.
pub open spec fn tr_removed(st: TreeV, ids: Seq<String>) -> TreeV
    decreases ids.len(),
{
    if ids.len() == 0 {
        st
    } else {
        let before = tr_removed(st, ids.drop_last());
        let id = ids.last()@;
        if before.known.contains(id) {
            TreeV {
                known: before.known.remove(id),
                buf: before.buf.push(DeltaV::RemoveNode { timestamp: 0, id }),
                ..before
            }
        } else {
            before
        }
    }
}

/// Moved ids verde knows are moved under their current parent (`None`: a
/// root, or a node no longer mirrored).
pub open spec fn tr_moved(s: Seq<NodeView>, st: TreeV, ids: Seq<String>) -> TreeV
    decreases ids.len(),
{
    if ids.len() == 0 {
        st
    } else {
        let before = tr_moved(s, st, ids.drop_last());
        let id = ids.last()@;
        if before.known.contains(id) {
            let parent = match key_of(s, id) {
                Some(k) => parent_id_of(s, k),
                None => None,
            };
            TreeV { buf: before.buf.push(DeltaV::MoveNode { timestamp: 0, id, new_parent_id: parent }), ..before }
        } else {
            before
        }
    }
}

/// Renamed ids verde knows, still mirrored, show their new name.
pub open spec fn tr_renamed(s: Seq<NodeView>, st: TreeV, ids: Seq<String>) -> TreeV
    decreases ids.len(),
{
    if ids.len() == 0 {
        st
    } else {
        let before = tr_renamed(s, st, ids.drop_last());
        let id = ids.last()@;
        match key_of(s, id) {
            Some(k) => if before.known.contains(id) {
                TreeV {
                    buf: before.buf.push(
                        DeltaV::UpdateNode {
                            timestamp: 0,
                            id,
                            name: Some(crate::dom::node_of(s, k).name),
                            has_children: None,
                        },
                    ),
                    ..before
                }
            } else {
                before
            },
            None => before,
        }
    }
}

/// Ids verde knows whose children changed, still mirrored, show whether they
/// are expandable.
pub open spec fn tr_children(s: Seq<NodeView>, st: TreeV, ids: Seq<String>) -> TreeV
    decreases ids.len(),
{
    if ids.len() == 0 {
        st
    } else {
        let before = tr_children(s, st, ids.drop_last());
        let id = ids.last()@;
        match key_of(s, id) {
            Some(k) => if before.known.contains(id) {
                TreeV {
                    buf: before.buf.push(
                        DeltaV::UpdateNode { timestamp: 0, id, name: None, has_children: Some(expandable(s, k)) },
                    ),
                    ..before
                }
            } else {
                before
            },
            None => before,
        }
    }
}

/// A mirror change folded into the tree state: additions, removals, moves,
/// renames, then child changes.
pub open spec fn translated(s: Seq<NodeView>, st: TreeV, change: DomChange) -> TreeV {
    let a = tr_added(s, st, change.added@);
    let r = tr_removed(a, change.removed@);
    let m = tr_moved(s, r, change.moved@);
    let n = tr_renamed(s, m, change.renamed@);
    tr_children(s, n, change.children_changed@)
}

/// The ids from `id` up towards the root that verde does not know yet,
/// nearest first, walking at most `fuel` steps; `None` when the walk meets an
/// id that is not mirrored.
pub open spec fn unknown_chain(s: Seq<NodeView>, known: Set<Seq<char>>, id: Seq<char>, fuel: nat) -> Option<
    Seq<Seq<char>>,
>
    decreases fuel,
{
    if fuel == 0 || known.contains(id) {
        Some(Seq::empty())
    } else {
        match key_of(s, id) {
            None => None,
            Some(k) => match parent_id_of(s, k) {
                None => Some(seq![id]),
                Some(p) => match unknown_chain(s, known, p, (fuel - 1) as nat) {
                    Some(rest) => Some(seq![id] + rest),
                    None => None,
                },
            },
        }
    }
}

/// Attach the ids of `chain`, in order, each under its parent.
pub open spec fn reveal_ids(s: Seq<NodeView>, st: TreeV, chain: Seq<Seq<char>>) -> TreeV
    decreases chain.len(),
{
    if chain.len() == 0 {
        st
    } else {
        let before = reveal_ids(s, st, chain.drop_last());
        let id = chain.last();
        match key_of(s, id) {
            None => before,
            Some(k) => {
                let parent = parent_id_of(s, k);
                TreeV {
                    buf: before.buf.push(attach(s, k, id, parent)),
                    known: before.known.insert(id),
                    loaded: match parent {
                        Some(p) => before.loaded.insert(p),
                        None => before.loaded,
                    },
                    roots: match parent {
                        Some(_) => before.roots,
                        None => before.roots.push(id),
                    },
                }
            },
        }
    }
}

/// The tree state after revealing the path to `id`: the unknown ancestors are
/// attached top down; nothing changes when the path leaves the mirror.
pub open spec fn revealed(s: Seq<NodeView>, st: TreeV, id: Seq<char>) -> TreeV {
    match unknown_chain(s, st.known, id, s.len()) {
        None => st,
        Some(up) => reveal_ids(s, st, Seq::new(up.len(), |j: int| up[up.len() - 1 - j])),
    }
}

/// Requested parents answered in order: each verde knows and has not loaded
/// is marked loaded; its mirrored children are attached as one subtree, or,
/// with none mirrored, it is either asked of the client (when it has some) or
/// flagged childless. Returns the state and the parents to ask for.
pub open spec fn answer_children(s: Seq<NodeView>, st: TreeV, parents: Seq<String>) -> (
    TreeV,
    Seq<Seq<char>>,
)
    decreases parents.len(),
{
    if parents.len() == 0 {
        (st, Seq::empty())
    } else {
        let (before, asks) = answer_children(s, st, parents.drop_last());
        let p = parents.last()@;
        if before.loaded.contains(p) || !before.known.contains(p) {
            (before, asks)
        } else {
            let kids = match key_of(s, p) {
                Some(k) => crate::dom::children_of(s, Some(k)),
                None => Seq::empty(),
            };
            let loaded = TreeV { loaded: before.loaded.insert(p), ..before };
            if kids.len() > 0 {
                let nodes = kids.map_values(|c: u64| shallow_view(s, c));
                (
                    TreeV {
                        known: loaded.known.union(Set::new(|x: Seq<char>| nodes.map_values(|n: NodeV| n.id).contains(x))),
                        buf: loaded.buf.push(spec_add_subtree(0, Some(p), nodes[0].id, nodes)),
                        ..loaded
                    },
                    asks,
                )
            } else if key_of(s, p) matches Some(k) && expandable(s, k) {
                (loaded, asks.push(p))
            } else {
                (
                    TreeV {
                        buf: loaded.buf.push(DeltaV::UpdateNode { timestamp: 0, id: p, name: None, has_children: Some(false) }),
                        ..loaded
                    },
                    asks,
                )
            }
        }
    }
}

/// The tree state a snapshot sets up: verde knows exactly the snapshot's
/// nodes, and has loaded them all when the snapshot is full.
pub open spec fn seeded(snapshot: SnapshotV, full: bool) -> TreeV {
    let ids = Set::new(|x: Seq<char>| snapshot.nodes.map_values(|n: NodeV| n.id).contains(x));
    TreeV {
        known: ids,
        loaded: if full {
            ids
        } else {
            Set::empty()
        },
        buf: Seq::empty(),
        roots: Seq::empty(),
    }
}

impl View for TreeState {
    type V = TreeV;

    open spec fn view(&self) -> TreeV {
        TreeV {
            known: self.known.ids(),
            loaded: self.loaded.ids(),
            buf: unstamped_view(self.delta_buf@),
            roots: texts(self.added_roots@),
        }
    }
}

/// The parent id and key of the mirrored node `id`, as the mirror records it.
fn parent_of_id(dom: &SessionDom, id: &str) -> (r: Option<(u64, Option<String>)>)
    requires
        dom.wf(),
    ensures
        match key_of(dom.nodes(), id@) {
            Some(k) => r matches Some((rk, p)) && rk == k && opt_text_of(p) == parent_id_of(dom.nodes(), k),
            None => r is None,
        },
{
    let ghost s = dom.nodes();
    match dom.get(id) {
        Some(node) => {
            proof {
                lemma_id_pos(s, id@);
                lemma_key_at(s, id_pos(s, id@)->0);
            }
            let parent = match dom.id_of(node.parent) {
                Some(p) => Some(p.clone()),
                None => None,
            };
            Some((node.key, parent))
        },
        None => None,
    }
}

/// Whether `longer` still holds every edit of `shorter`, in place: what was
/// buffered, timestamps included, stays as it was.
pub open spec fn keeps_edits(longer: Seq<DeltaOp>, shorter: Seq<DeltaOp>) -> bool {
    shorter.len() <= longer.len() && forall|i: int| 0 <= i < shorter.len() ==> longer[i] == shorter[i]
}

/// The text of an optional string.
pub open spec fn opt_text_of(o: Option<String>) -> Option<Seq<char>> {
    crate::verde::explorer::opt_text(o)
}

impl TreeState {
    /// Nothing known, nothing buffered.
    pub fn new() -> (r: Self)
        ensures
            r@ == (TreeV {
                known: Set::empty(),
                loaded: Set::empty(),
                buf: Seq::empty(),
                roots: Seq::empty(),
            }),
    {
        let r = TreeState {
            known: IdSet::new(),
            loaded: IdSet::new(),
            delta_buf: Vec::new(),
            added_roots: Vec::new(),
        };
        assert(unstamped_view(r.delta_buf@) =~= Seq::<DeltaV>::empty());
        assert(texts(r.added_roots@) =~= Seq::<Seq<char>>::empty());
        r
    }

    /// Buffer one edit.
    fn push_op(&mut self, op: DeltaOp)
        ensures
            final(self)@ == (TreeV { buf: old(self)@.buf.push(unstamped(op@)), ..old(self)@ }),
            final(self).delta_buf@ == old(self).delta_buf@.push(op),
    {
        let ghost before = self.delta_buf@;
        self.delta_buf.push(op);
        assert(unstamped_view(self.delta_buf@) =~= unstamped_view(before).push(unstamped(op@)));
    }

    /// Record a root added since the last flush.
    fn push_root(&mut self, id: String)
        ensures
            final(self)@ == (TreeV { roots: old(self)@.roots.push(id@), ..old(self)@ }),
            final(self).delta_buf@ == old(self).delta_buf@,
    {
        let ghost before = self.added_roots@;
        self.added_roots.push(id);
        assert(texts(self.added_roots@) =~= texts(before).push(id@));
    }

    /// The edit attaching the mirrored node `id` alone, under `parent`.
    fn attach_op(dom: &SessionDom, id: &String, parent: Option<String>, stamp: u64) -> (r: Option<DeltaOp>)
        requires
            dom.wf(),
        ensures
            match key_of(dom.nodes(), id@) {
                Some(k) => r matches Some(op) && unstamped(op@) == attach(dom.nodes(), k, id@, opt_text_of(parent)),
                None => r is None,
            },
    {
        let ghost s = dom.nodes();
        proof {
            lemma_id_pos(s, id@);
            if let Some(j) = id_pos(s, id@) {
                lemma_key_at(s, j);
            }
        }
        match shallow_node(dom, id.as_str()) {
            Some(n) => {
                let mut nodes: Vec<Node> = Vec::new();
                nodes.push(n);
                let ghost k = key_of(s, id@)->0;
                assert(nodes_view(nodes@) =~= seq![shallow_view(s, k)]);
                Some(DeltaOp::add_subtree(stamp, parent, id.clone(), nodes))
            },
            None => None,
        }
    }

    /// Fold newly mirrored ids in.
    fn add_ids(&mut self, dom: &SessionDom, ids: &Vec<String>, epoch: &Instant)
        requires
            dom.wf(),
        ensures
            final(self)@ == tr_added(dom.nodes(), old(self)@, ids@),
            keeps_edits(final(self).delta_buf@, old(self).delta_buf@),
    {
        let ghost s = dom.nodes();
        let ghost st0 = self@;
        let ghost b0 = self.delta_buf@;
        let mut i: usize = 0;
        assert(ids@.take(0) =~= Seq::<String>::empty());
        while i < ids.len()
            invariant
                s == dom.nodes(),
                dom.wf(),
                i <= ids@.len(),
                self@ == tr_added(s, st0, ids@.take(i as int)),
                keeps_edits(self.delta_buf@, b0),
            decreases ids@.len() - i,
        {
            let id = &ids[i];
            assert(ids@.take(i + 1).drop_last() =~= ids@.take(i as int));
            assert(ids@.take(i + 1).last() == *id);
            match parent_of_id(dom, id.as_str()) {
                None => {},
                Some((_, None)) => {
                    if let Some(op) = Self::attach_op(dom, id, None, nanos_since(epoch)) {
                        self.push_op(op);
                        self.push_root(id.clone());
                        self.known.insert(id.clone());
                    }
                },
                Some((_, Some(p))) => {
                    if self.known.contains(p.as_str()) {
                        if let Some(op) = Self::attach_op(dom, id, Some(p.clone()), nanos_since(epoch)) {
                            self.push_op(op);
                            self.known.insert(id.clone());
                            self.loaded.insert(p);
                        }
                    }
                },
            }
            i = i + 1;
        }
        assert(ids@.take(ids@.len() as int) =~= ids@);
    }

    /// Fold removed ids in.
    fn remove_ids(&mut self, ids: &Vec<String>, epoch: &Instant)
        ensures
            final(self)@ == tr_removed(old(self)@, ids@),
            keeps_edits(final(self).delta_buf@, old(self).delta_buf@),
    {
        let ghost st0 = self@;
        let ghost b0 = self.delta_buf@;
        let mut i: usize = 0;
        assert(ids@.take(0) =~= Seq::<String>::empty());
        while i < ids.len()
            invariant
                i <= ids@.len(),
                self@ == tr_removed(st0, ids@.take(i as int)),
                keeps_edits(self.delta_buf@, b0),
            decreases ids@.len() - i,
        {
            let id = &ids[i];
            assert(ids@.take(i + 1).drop_last() =~= ids@.take(i as int));
            assert(ids@.take(i + 1).last() == *id);
            let ghost before = self@;
            let was_known = self.known.remove(id.as_str());
            if was_known {
                self.push_op(DeltaOp::remove_node(nanos_since(epoch), id.clone()));
            } else {
                assert(self@.known =~= before.known);
            }
            i = i + 1;
        }
        assert(ids@.take(ids@.len() as int) =~= ids@);
    }

    /// Fold moved ids in.
    fn move_ids(&mut self, dom: &SessionDom, ids: &Vec<String>, epoch: &Instant)
        requires
            dom.wf(),
        ensures
            final(self)@ == tr_moved(dom.nodes(), old(self)@, ids@),
            keeps_edits(final(self).delta_buf@, old(self).delta_buf@),
    {
        let ghost s = dom.nodes();
        let ghost st0 = self@;
        let ghost b0 = self.delta_buf@;
        let mut i: usize = 0;
        assert(ids@.take(0) =~= Seq::<String>::empty());
        while i < ids.len()
            invariant
                s == dom.nodes(),
                dom.wf(),
                i <= ids@.len(),
                self@ == tr_moved(s, st0, ids@.take(i as int)),
                keeps_edits(self.delta_buf@, b0),
            decreases ids@.len() - i,
        {
            let id = &ids[i];
            assert(ids@.take(i + 1).drop_last() =~= ids@.take(i as int));
            assert(ids@.take(i + 1).last() == *id);
            if self.known.contains(id.as_str()) {
                let parent = match parent_of_id(dom, id.as_str()) {
                    Some((_, p)) => p,
                    None => None,
                };
                self.push_op(DeltaOp::move_node(nanos_since(epoch), id.clone(), parent));
            }
            i = i + 1;
        }
        assert(ids@.take(ids@.len() as int) =~= ids@);
    }

    /// Fold renamed ids in.
    fn rename_ids(&mut self, dom: &SessionDom, ids: &Vec<String>, epoch: &Instant)
        requires
            dom.wf(),
        ensures
            final(self)@ == tr_renamed(dom.nodes(), old(self)@, ids@),
            keeps_edits(final(self).delta_buf@, old(self).delta_buf@),
    {
        let ghost s = dom.nodes();
        let ghost st0 = self@;
        let ghost b0 = self.delta_buf@;
        let mut i: usize = 0;
        assert(ids@.take(0) =~= Seq::<String>::empty());
        while i < ids.len()
            invariant
                s == dom.nodes(),
                dom.wf(),
                i <= ids@.len(),
                self@ == tr_renamed(s, st0, ids@.take(i as int)),
                keeps_edits(self.delta_buf@, b0),
            decreases ids@.len() - i,
        {
            let id = &ids[i];
            assert(ids@.take(i + 1).drop_last() =~= ids@.take(i as int));
            assert(ids@.take(i + 1).last() == *id);
            if self.known.contains(id.as_str()) {
                if let Some(node) = dom.get(id.as_str()) {
                    proof {
                        lemma_id_pos(s, id@);
                        lemma_key_at(s, id_pos(s, id@)->0);
                    }
                    self.push_op(DeltaOp::rename(nanos_since(epoch), id.clone(), node.name.clone()));
                }
            }
            i = i + 1;
        }
        assert(ids@.take(ids@.len() as int) =~= ids@);
    }

    /// Fold ids whose children changed in.
    fn flag_ids(&mut self, dom: &SessionDom, ids: &Vec<String>, epoch: &Instant)
        requires
            dom.wf(),
        ensures
            final(self)@ == tr_children(dom.nodes(), old(self)@, ids@),
            keeps_edits(final(self).delta_buf@, old(self).delta_buf@),
    {
        let ghost s = dom.nodes();
        let ghost st0 = self@;
        let ghost b0 = self.delta_buf@;
        let mut i: usize = 0;
        assert(ids@.take(0) =~= Seq::<String>::empty());
        while i < ids.len()
            invariant
                s == dom.nodes(),
                dom.wf(),
                i <= ids@.len(),
                self@ == tr_children(s, st0, ids@.take(i as int)),
                keeps_edits(self.delta_buf@, b0),
            decreases ids@.len() - i,
        {
            let id = &ids[i];
            assert(ids@.take(i + 1).drop_last() =~= ids@.take(i as int));
            assert(ids@.take(i + 1).last() == *id);
            if self.known.contains(id.as_str()) {
                if let Some(node) = dom.get(id.as_str()) {
                    let flag = dom.has_children(node.key);
                    self.push_op(DeltaOp::has_children(nanos_since(epoch), id.clone(), flag));
                }
            }
            i = i + 1;
        }
        assert(ids@.take(ids@.len() as int) =~= ids@);
    }

    /// Fold one mirror change into buffered edits, filtering out what verde
    /// does not have a place for yet.
    pub fn translate(&mut self, dom: &SessionDom, change: &DomChange, epoch: &Instant)
        requires
            dom.wf(),
        ensures
            final(self)@ == translated(dom.nodes(), old(self)@, *change),
            keeps_edits(final(self).delta_buf@, old(self).delta_buf@),
    {
        self.add_ids(dom, &change.added, epoch);
        self.remove_ids(&change.removed, epoch);
        self.move_ids(dom, &change.moved, epoch);
        self.rename_ids(dom, &change.renamed, epoch);
        self.flag_ids(dom, &change.children_changed, epoch);
    }
}

/// The unknown ids from `id` up towards the root (see `unknown_chain`).
fn chain_up(dom: &SessionDom, known: &IdSet, id: String, fuel: usize) -> (r: Option<Vec<String>>)
    requires
        dom.wf(),
    ensures
        match unknown_chain(dom.nodes(), known.ids(), id@, fuel as nat) {
            Some(c) => r matches Some(v) && texts(v@) == c,
            None => r is None,
        },
    decreases fuel,
{
    if fuel == 0 || known.contains(id.as_str()) {
        let v: Vec<String> = Vec::new();
        assert(texts(v@) =~= Seq::<Seq<char>>::empty());
        return Some(v);
    }
    match parent_of_id(dom, id.as_str()) {
        None => None,
        Some((_, None)) => {
            let mut v: Vec<String> = Vec::new();
            let ghost t = id@;
            v.push(id);
            assert(texts(v@) =~= seq![t]);
            Some(v)
        },
        Some((_, Some(p))) => match chain_up(dom, known, p, fuel - 1) {
            Some(mut rest) => {
                let mut v: Vec<String> = Vec::new();
                let ghost t = id@;
                let ghost tail = texts(rest@);
                v.push(id);
                v.append(&mut rest);
                assert(texts(v@) =~= seq![t] + tail);
                Some(v)
            },
            None => None,
        },
    }
}

impl TreeState {
    /// Make sure every ancestor of `ref_id` is known to verde, so that the
    /// instance resolves when clicked: the unknown chain is attached top down.
    pub fn reveal_path(&mut self, dom: &SessionDom, ref_id: &str, epoch: &Instant)
        requires
            dom.wf(),
        ensures
            final(self)@ == revealed(dom.nodes(), old(self)@, ref_id@),
            keeps_edits(final(self).delta_buf@, old(self).delta_buf@),
    {
        let ghost s = dom.nodes();
        let ghost st0 = self@;
        let ghost b0 = self.delta_buf@;
        let up = match chain_up(dom, &self.known, ref_id.to_owned(), dom.len()) {
            Some(up) => up,
            None => {
                return;
            },
        };
        let ghost c = texts(up@);
        let ghost down = Seq::new(c.len(), |j: int| c[c.len() - 1 - j]);
        let mut j: usize = 0;
        assert(down.take(0) =~= Seq::<Seq<char>>::empty());
        while j < up.len()
            invariant
                s == dom.nodes(),
                dom.wf(),
                c == texts(up@),
                down == Seq::new(c.len(), |j: int| c[c.len() - 1 - j]),
                j <= up@.len(),
                self@ == reveal_ids(s, st0, down.take(j as int)),
                keeps_edits(self.delta_buf@, b0),
            decreases up@.len() - j,
        {
            let id = &up[up.len() - 1 - j];
            assert(down[j as int] == id@);
            assert(down.take(j + 1).drop_last() =~= down.take(j as int));
            assert(down.take(j + 1).last() == id@);
            match parent_of_id(dom, id.as_str()) {
                None => {},
                Some((_, parent)) => {
                    if let Some(op) = Self::attach_op(dom, id, parent.clone(), nanos_since(epoch)) {
                        self.push_op(op);
                        self.known.insert(id.clone());
                        match parent {
                            Some(p) => {
                                self.loaded.insert(p);
                            },
                            None => {
                                self.push_root(id.clone());
                            },
                        }
                    }
                },
            }
            j = j + 1;
        }
        assert(down.take(up@.len() as int) =~= down);
    }

    /// Reveal the path to each of `ref_ids`, in order.
    pub fn reveal_paths(&mut self, dom: &SessionDom, ref_ids: &Vec<String>, epoch: &Instant)
        requires
            dom.wf(),
        ensures
            final(self)@ == reveal_all(dom.nodes(), old(self)@, ref_ids@),
            keeps_edits(final(self).delta_buf@, old(self).delta_buf@),
    {
        let ghost s = dom.nodes();
        let ghost st0 = self@;
        let ghost b0 = self.delta_buf@;
        let mut i: usize = 0;
        assert(ref_ids@.take(0) =~= Seq::<String>::empty());
        while i < ref_ids.len()
            invariant
                s == dom.nodes(),
                dom.wf(),
                i <= ref_ids@.len(),
                self@ == reveal_all(s, st0, ref_ids@.take(i as int)),
                keeps_edits(self.delta_buf@, b0),
            decreases ref_ids@.len() - i,
        {
            assert(ref_ids@.take(i + 1).drop_last() =~= ref_ids@.take(i as int));
            self.reveal_path(dom, ref_ids[i].as_str(), epoch);
            i = i + 1;
        }
        assert(ref_ids@.take(ref_ids@.len() as int) =~= ref_ids@);
    }

    /// Start over from a snapshot verde was just sent: it knows exactly the
    /// snapshot's nodes, and has loaded them all when the snapshot is full.
    pub fn seed(&mut self, snapshot: &Snapshot, full: bool)
        ensures
            final(self)@ == seeded(snapshot@, full),
    {
        self.delta_buf.clear();
        self.added_roots.clear();
        let ghost ids = snapshot@.nodes.map_values(|n: NodeV| n.id);
        let mut known = IdSet::new();
        let mut i: usize = 0;
        while i < snapshot.nodes.len()
            invariant
                ids == snapshot@.nodes.map_values(|n: NodeV| n.id),
                i <= snapshot.nodes@.len(),
                known.ids() == Set::new(|x: Seq<char>| ids.take(i as int).contains(x)),
            decreases snapshot.nodes@.len() - i,
        {
            let id = snapshot.nodes[i].id.clone();
            assert(id@ == ids[i as int]);
            known.insert(id);
            proof {
                assert(ids.take(i + 1) =~= ids.take(i as int).push(ids[i as int]));
                lemma_push_contains(ids.take(i as int), ids[i as int]);
                assert(known.ids() =~= Set::new(|x: Seq<char>| ids.take(i + 1).contains(x)));
            }
            i = i + 1;
        }
        assert(ids.take(snapshot.nodes@.len() as int) =~= ids);
        let loaded = if full {
            known.duplicate()
        } else {
            IdSet::new()
        };
        self.known = known;
        self.loaded = loaded;
        assert(unstamped_view(self.delta_buf@) =~= Seq::<DeltaV>::empty());
        assert(texts(self.added_roots@) =~= Seq::<Seq<char>>::empty());
        assert(self@.known =~= seeded(snapshot@, full).known);
        assert(self@.loaded =~= seeded(snapshot@, full).loaded);
    }

    /// Take the buffered edits and the roots they add, if there are any.
    pub fn take_delta(&mut self) -> (r: Option<(Vec<DeltaOp>, Vec<String>)>)
        ensures
            match r {
                None => old(self)@.buf.len() == 0 && final(self)@ == old(self)@,
                Some((ops, roots)) => {
                    &&& old(self)@.buf.len() > 0
                    &&& ops@ == old(self).delta_buf@
                    &&& texts(roots@) == old(self)@.roots
                    &&& final(self)@ == (TreeV { buf: Seq::empty(), roots: Seq::empty(), ..old(self)@ })
                },
            },
    {
        if self.delta_buf.len() == 0 {
            return None;
        }
        let mut ops: Vec<DeltaOp> = Vec::new();
        let mut roots: Vec<String> = Vec::new();
        std::mem::swap(&mut ops, &mut self.delta_buf);
        std::mem::swap(&mut roots, &mut self.added_roots);
        assert(unstamped_view(self.delta_buf@) =~= Seq::<DeltaV>::empty());
        assert(texts(self.added_roots@) =~= Seq::<Seq<char>>::empty());
        Some((ops, roots))
    }

    /// Verde let go of subtrees: the parents are no longer loaded, the nodes
    /// neither known nor loaded.
    pub fn release_subtree(&mut self, parent_ids: &Vec<String>, node_ids: &Vec<String>)
        ensures
            final(self)@ == (TreeV {
                loaded: old(self)@.loaded.difference(Set::new(|x: Seq<char>| texts(parent_ids@).contains(x)))
                    .difference(Set::new(|x: Seq<char>| texts(node_ids@).contains(x))),
                known: old(self)@.known.difference(Set::new(|x: Seq<char>| texts(node_ids@).contains(x))),
                ..old(self)@
            }),
            final(self).delta_buf@ == old(self).delta_buf@,
    {
        let ghost st0 = self@;
        let ghost b0 = self.delta_buf@;
        let ghost ps = texts(parent_ids@);
        let ghost ns = texts(node_ids@);
        let mut i: usize = 0;
        assert(self.loaded.ids() =~= st0.loaded.difference(Set::new(|x: Seq<char>| ps.take(0).contains(x))));
        while i < parent_ids.len()
            invariant
                ps == texts(parent_ids@),
                i <= parent_ids@.len(),
                self@ == (TreeV {
                    loaded: st0.loaded.difference(Set::new(|x: Seq<char>| ps.take(i as int).contains(x))),
                    ..st0
                }),
                self.delta_buf@ == b0,
            decreases parent_ids@.len() - i,
        {
            self.loaded.remove(parent_ids[i].as_str());
            proof {
                assert(ps.take(i + 1) =~= ps.take(i as int).push(ps[i as int]));
                lemma_push_contains(ps.take(i as int), ps[i as int]);
                assert(self.loaded.ids() =~= st0.loaded.difference(
                    Set::new(|x: Seq<char>| ps.take(i + 1).contains(x)),
                ));
            }
            i = i + 1;
        }
        assert(ps.take(parent_ids@.len() as int) =~= ps);
        let ghost st1 = self@;
        let mut j: usize = 0;
        assert(self.loaded.ids() =~= st1.loaded.difference(Set::new(|x: Seq<char>| ns.take(0).contains(x))));
        assert(self.known.ids() =~= st1.known.difference(Set::new(|x: Seq<char>| ns.take(0).contains(x))));
        while j < node_ids.len()
            invariant
                ns == texts(node_ids@),
                j <= node_ids@.len(),
                self@ == (TreeV {
                    loaded: st1.loaded.difference(Set::new(|x: Seq<char>| ns.take(j as int).contains(x))),
                    known: st1.known.difference(Set::new(|x: Seq<char>| ns.take(j as int).contains(x))),
                    ..st1
                }),
                self.delta_buf@ == b0,
            decreases node_ids@.len() - j,
        {
            self.known.remove(node_ids[j].as_str());
            self.loaded.remove(node_ids[j].as_str());
            proof {
                assert(ns.take(j + 1) =~= ns.take(j as int).push(ns[j as int]));
                lemma_push_contains(ns.take(j as int), ns[j as int]);
                assert(self.loaded.ids() =~= st1.loaded.difference(
                    Set::new(|x: Seq<char>| ns.take(j + 1).contains(x)),
                ));
                assert(self.known.ids() =~= st1.known.difference(
                    Set::new(|x: Seq<char>| ns.take(j + 1).contains(x)),
                ));
            }
            j = j + 1;
        }
        assert(ns.take(node_ids@.len() as int) =~= ns);
        assert(self@.loaded =~= st0.loaded.difference(Set::new(|x: Seq<char>| ps.contains(x))).difference(
            Set::new(|x: Seq<char>| ns.contains(x)),
        ));
    }
}

/// The paths to each of `ids` revealed in order.
pub open spec fn reveal_all(s: Seq<NodeView>, st: TreeV, ids: Seq<String>) -> TreeV
    decreases ids.len(),
{
    if ids.len() == 0 {
        st
    } else {
        revealed(s, reveal_all(s, st, ids.drop_last()), ids.last()@)
    }
}

impl TreeState {
    /// Answer verde's request for the children of `parent_ids`: each parent
    /// verde knows and has not loaded gets its mirrored children attached, or
    /// is flagged childless; returns the parents whose children must first be
    /// asked of the client.
    pub fn request_children(&mut self, dom: &SessionDom, parent_ids: &Vec<String>, epoch: &Instant) -> (r: Vec<String>)
        requires
            dom.wf(),
        ensures
            (final(self)@, texts(r@)) == answer_children(dom.nodes(), old(self)@, parent_ids@),
            keeps_edits(final(self).delta_buf@, old(self).delta_buf@),
    {
        let ghost s = dom.nodes();
        let ghost st0 = self@;
        let ghost b0 = self.delta_buf@;
        let mut asks: Vec<String> = Vec::new();
        let mut i: usize = 0;
        assert(parent_ids@.take(0) =~= Seq::<String>::empty());
        assert(texts(asks@) =~= Seq::<Seq<char>>::empty());
        while i < parent_ids.len()
            invariant
                s == dom.nodes(),
                dom.wf(),
                i <= parent_ids@.len(),
                (self@, texts(asks@)) == answer_children(s, st0, parent_ids@.take(i as int)),
                keeps_edits(self.delta_buf@, b0),
            decreases parent_ids@.len() - i,
        {
            let p = &parent_ids[i];
            assert(parent_ids@.take(i + 1).drop_last() =~= parent_ids@.take(i as int));
            assert(parent_ids@.take(i + 1).last() == *p);
            let ghost before = self@;
            let ghost asks_before = texts(asks@);
            if self.loaded.contains(p.as_str()) || !self.known.contains(p.as_str()) {
            } else {
                let children = children_of(dom, p.as_str());
                let flag = match dom.get(p.as_str()) {
                    Some(node) => dom.has_children(node.key),
                    None => false,
                };
                self.loaded.insert(p.clone());
                let ghost loaded_state = self@;
                if children.len() > 0 {
                    let ghost nodes = nodes_view(children@);
                    let ghost ids = nodes.map_values(|n: NodeV| n.id);
                    let root_id = children[0].id.clone();
                    let mut c: usize = 0;
                    assert(self@.known =~= loaded_state.known.union(Set::new(|x: Seq<char>| ids.take(0).contains(x))));
                    while c < children.len()
                        invariant
                            nodes == nodes_view(children@),
                            ids == nodes.map_values(|n: NodeV| n.id),
                            c <= children@.len(),
                            self@ == (TreeV {
                                known: loaded_state.known.union(Set::new(|x: Seq<char>| ids.take(c as int).contains(x))),
                                ..loaded_state
                            }),
                            keeps_edits(self.delta_buf@, b0),
                        decreases children@.len() - c,
                    {
                        let id = children[c].id.clone();
                        assert(id@ == ids[c as int]);
                        self.known.insert(id);
                        proof {
                            assert(ids.take(c + 1) =~= ids.take(c as int).push(ids[c as int]));
                            lemma_push_contains(ids.take(c as int), ids[c as int]);
                            assert(self@.known =~= loaded_state.known.union(
                                Set::new(|x: Seq<char>| ids.take(c + 1).contains(x)),
                            ));
                        }
                        c = c + 1;
                    }
                    assert(ids.take(children@.len() as int) =~= ids);
                    self.push_op(DeltaOp::add_subtree(nanos_since(epoch), Some(p.clone()), root_id, children));
                } else if flag {
                    asks.push(p.clone());
                    assert(texts(asks@) =~= asks_before.push(p@));
                } else {
                    self.push_op(DeltaOp::has_children(nanos_since(epoch), p.clone(), false));
                }
            }
            i = i + 1;
        }
        assert(parent_ids@.take(parent_ids@.len() as int) =~= parent_ids@);
        asks
    }
}

/// Revealing an id verde already knows changes nothing: no duplicate adds.
pub proof fn lemma_reveal_known_is_noop(s: Seq<NodeView>, st: TreeV, id: Seq<char>)
    requires
        st.known.contains(id),
    ensures
        revealed(s, st, id) == st,
{
    let up = unknown_chain(s, st.known, id, s.len()).unwrap();
    assert(up.len() == 0);
    assert(Seq::new(up.len(), |j: int| up[up.len() - 1 - j]) =~= Seq::<Seq<char>>::empty());
}

/// Every node an addition attaches under a parent hangs under one verde
/// already knew; the others are new roots.
pub proof fn lemma_added_have_a_place(s: Seq<NodeView>, st: TreeV, ids: Seq<String>)
    ensures
        st.known.subset_of(tr_added(s, st, ids).known),
        forall|i: int|
            st.buf.len() <= i < tr_added(s, st, ids).buf.len() ==> match #[trigger] tr_added(
                s,
                st,
                ids,
            ).buf[i] {
                DeltaV::AddSubtree { parent_id: Some(p), .. } => tr_added(s, st, ids).known.contains(p),
                DeltaV::AddSubtree { parent_id: None, root_id, .. } => tr_added(s, st, ids).roots.contains(
                    root_id,
                ),
                _ => false,
            },
        tr_added(s, st, ids).buf.len() >= st.buf.len(),
        tr_added(s, st, ids).buf.take(st.buf.len() as int) == st.buf,
        tr_added(s, st, ids).roots.take(st.roots.len() as int) == st.roots,
        tr_added(s, st, ids).roots.len() >= st.roots.len(),
    decreases ids.len(),
{
    if ids.len() > 0 {
        lemma_added_have_a_place(s, st, ids.drop_last());
        let before = tr_added(s, st, ids.drop_last());
        let after = tr_added(s, st, ids);
        let id = ids.last()@;
        if let Some(k) = key_of(s, id) {
            assert(after.buf.take(before.buf.len() as int) =~= before.buf);
            assert(after.roots.take(before.roots.len() as int) =~= before.roots);
            assert(after.buf.take(st.buf.len() as int) =~= before.buf.take(st.buf.len() as int));
            assert(after.roots.take(st.roots.len() as int) =~= before.roots.take(st.roots.len() as int));
            assert forall|i: int| st.buf.len() <= i < after.buf.len() implies match #[trigger] after.buf[i] {
                DeltaV::AddSubtree { parent_id: Some(p), .. } => after.known.contains(p),
                DeltaV::AddSubtree { parent_id: None, root_id, .. } => after.roots.contains(root_id),
                _ => false,
            } by {
                if i < before.buf.len() {
                    assert(after.buf[i] == before.buf[i]);
                    match before.buf[i] {
                        DeltaV::AddSubtree { parent_id: None, root_id, .. } => {
                            let j = choose|j: int| 0 <= j < before.roots.len() && before.roots[j] == root_id;
                            assert(after.roots[j] == root_id);
                        },
                        _ => {},
                    }
                } else {
                    if parent_id_of(s, k) is None {
                        assert(after.roots[after.roots.len() - 1] == id);
                    }
                }
            }
        }
    }
}

} // verus!
