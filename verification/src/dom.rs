//! A lazily populated mirror of a client's DataModel: the instances the client
//! has sent, where each sits in the tree, and their values.

use vstd::prelude::*;

use crate::assoc::{assoc_get, assoc_lookup, assoc_map, assoc_remove, assoc_set, assoc_take};
use crate::protocol::dom::{DomInstance, DomPatch, DomUpdate, TagChange};
use crate::protocol::value::{spec_is_attribute_safe, ContentValue, DomValue};

verus! {

/// A value as the mirror stores it: references are resolved to the mirrored
/// instance they name (or to the null reference when it is not mirrored).
#[derive(Debug, PartialEq)]
pub enum MirrorValue {
    /// Any value that is not an instance reference.
    Value(DomValue),
    /// An instance reference: the referenced node's key, `None` for null.
    Ref(Option<u64>),
    /// A `Content` that refers to an instance: its key, `None` for null.
    ContentRef(Option<u64>),
    /// The attribute store, under the `Attributes` property.
    Attributes(Vec<(String, DomValue)>),
    /// The tag set, under the `Tags` property.
    Tags(Vec<String>),
}

/// What a stored value means: the attribute store as a map, tags as a list.
pub enum StoredView {
    Value(DomValue),
    Ref(Option<u64>),
    ContentRef(Option<u64>),
    Attributes(Map<Seq<char>, DomValue>),
    Tags(Seq<Seq<char>>),
}

impl View for MirrorValue {
    type V = StoredView;

    open spec fn view(&self) -> StoredView {
        match self {
            MirrorValue::Value(v) => StoredView::Value(*v),
            MirrorValue::Ref(k) => StoredView::Ref(*k),
            MirrorValue::ContentRef(k) => StoredView::ContentRef(*k),
            MirrorValue::Attributes(a) => StoredView::Attributes(assoc_map(a@)),
            MirrorValue::Tags(t) => StoredView::Tags(t@.map_values(|s: String| s@)),
        }
    }
}

/// One mirrored instance.
#[derive(Debug)]
pub struct MirrorNode {
    /// The node's identity within the mirror (stands for the DOM referent).
    pub key: u64,
    /// The client's id for the instance.
    pub id: String,
    /// The parent's key; `None` when the node hangs off the synthetic root.
    pub parent: Option<u64>,
    pub class: String,
    pub name: String,
    /// Whether the client said the live instance has children.
    pub has_children: bool,
    /// Property name to stored value (`Attributes` and `Tags` included).
    pub properties: Vec<(String, MirrorValue)>,
}

/// What a mirrored instance is: identity, place, names and stored values.
pub struct NodeView {
    pub key: u64,
    pub id: Seq<char>,
    pub parent: Option<u64>,
    pub class: Seq<char>,
    pub name: Seq<char>,
    pub has_children: bool,
    pub values: Map<Seq<char>, StoredView>,
}

/// The stored values of a property list, by name (a later pair wins).
pub open spec fn values_of(props: Seq<(String, MirrorValue)>) -> Map<Seq<char>, StoredView> {
    Map::new(|k: Seq<char>| assoc_map(props).contains_key(k), |k: Seq<char>| assoc_map(props)[k]@)
}

impl View for MirrorNode {
    type V = NodeView;

    open spec fn view(&self) -> NodeView {
        NodeView {
            key: self.key,
            id: self.id@,
            parent: self.parent,
            class: self.class@,
            name: self.name@,
            has_children: self.has_children,
            values: values_of(self.properties@),
        }
    }
}

/// The index of the first node with `key`.
pub open spec fn key_pos(s: Seq<NodeView>, key: u64) -> Option<int>
    decreases s.len(),
{
    if s.len() == 0 {
        None
    } else {
        match key_pos(s.drop_last(), key) {
            Some(i) => Some(i),
            None => if s.last().key == key {
                Some(s.len() - 1)
            } else {
                None
            },
        }
    }
}

/// The index of the first node with client id `id`.
pub open spec fn id_pos(s: Seq<NodeView>, id: Seq<char>) -> Option<int>
    decreases s.len(),
{
    if s.len() == 0 {
        None
    } else {
        match id_pos(s.drop_last(), id) {
            Some(i) => Some(i),
            None => if s.last().id == id {
                Some(s.len() - 1)
            } else {
                None
            },
        }
    }
}

/// What `key_pos` finds: the earliest node with the key.
pub proof fn lemma_key_pos(s: Seq<NodeView>, key: u64)
    ensures
        match key_pos(s, key) {
            Some(i) => 0 <= i < s.len() && s[i].key == key && forall|j: int| 0 <= j < i ==> s[j].key != key,
            None => forall|j: int| 0 <= j < s.len() ==> s[j].key != key,
        },
    decreases s.len(),
{
    if s.len() > 0 {
        let init = s.drop_last();
        lemma_key_pos(init, key);
        assert(forall|j: int| 0 <= j < init.len() ==> init[j] == s[j]);
    }
}

/// What `id_pos` finds: the earliest node with the id.
pub proof fn lemma_id_pos(s: Seq<NodeView>, id: Seq<char>)
    ensures
        match id_pos(s, id) {
            Some(i) => 0 <= i < s.len() && s[i].id == id && forall|j: int| 0 <= j < i ==> s[j].id != id,
            None => forall|j: int| 0 <= j < s.len() ==> s[j].id != id,
        },
    decreases s.len(),
{
    if s.len() > 0 {
        let init = s.drop_last();
        lemma_id_pos(init, id);
        assert(forall|j: int| 0 <= j < init.len() ==> init[j] == s[j]);
    }
}

/// No two nodes share a key.
pub open spec fn keys_unique(s: Seq<NodeView>) -> bool {
    forall|i: int, j: int| 0 <= i < s.len() && 0 <= j < s.len() && i != j ==> s[i].key != s[j].key
}

/// No two nodes share a client id.
pub open spec fn ids_unique(s: Seq<NodeView>) -> bool {
    forall|i: int, j: int| 0 <= i < s.len() && 0 <= j < s.len() && i != j ==> s[i].id != s[j].id
}

/// Whether a node has `key`.
pub open spec fn has_key(s: Seq<NodeView>, key: u64) -> bool {
    key_pos(s, key) is Some
}

/// The node with `key`.
pub open spec fn node_of(s: Seq<NodeView>, key: u64) -> NodeView {
    s[key_pos(s, key)->0]
}

/// The key of the node mirroring client id `id`.
pub open spec fn key_of(s: Seq<NodeView>, id: Seq<char>) -> Option<u64> {
    match id_pos(s, id) {
        Some(i) => Some(s[i].key),
        None => None,
    }
}

/// With unique keys, the node at any index is the node of its key.
pub proof fn lemma_key_at(s: Seq<NodeView>, j: int)
    requires
        keys_unique(s),
        0 <= j < s.len(),
    ensures
        key_pos(s, s[j].key) == Some(j),
        has_key(s, s[j].key),
        node_of(s, s[j].key) == s[j],
{
    lemma_key_pos(s, s[j].key);
}

/// A key no node carries.
pub proof fn lemma_key_absent(s: Seq<NodeView>, key: u64)
    requires
        forall|j: int| 0 <= j < s.len() ==> s[j].key != key,
    ensures
        !has_key(s, key),
{
    lemma_key_pos(s, key);
}

/// With unique ids, the node at any index is the one its id finds.
pub proof fn lemma_id_at(s: Seq<NodeView>, j: int)
    requires
        ids_unique(s),
        0 <= j < s.len(),
    ensures
        id_pos(s, s[j].id) == Some(j),
        key_of(s, s[j].id) == Some(s[j].key),
{
    lemma_id_pos(s, s[j].id);
}

/// An id no node carries.
pub proof fn lemma_id_absent(s: Seq<NodeView>, id: Seq<char>)
    requires
        forall|j: int| 0 <= j < s.len() ==> s[j].id != id,
    ensures
        key_of(s, id) is None,
        id_pos(s, id) is None,
{
    lemma_id_pos(s, id);
}

/// The parent of the node with `key` (`None`: the root, or no such node).
pub open spec fn parent_of(s: Seq<NodeView>, key: u64) -> Option<u64> {
    if has_key(s, key) {
        node_of(s, key).parent
    } else {
        None
    }
}

/// Where `n` steps up the parent chain from `start` lead (`None`: the root).
pub open spec fn up(s: Seq<NodeView>, start: Option<u64>, n: nat) -> Option<u64>
    decreases n,
{
    if n == 0 {
        start
    } else {
        match start {
            None => None,
            Some(x) => up(s, parent_of(s, x), (n - 1) as nat),
        }
    }
}

/// Whether `a` is a proper ancestor of the node with key `x`.
pub open spec fn is_anc(s: Seq<NodeView>, a: u64, x: u64) -> bool {
    exists|n: nat| n >= 1 && #[trigger] up(s, Some(x), n) == Some(a)
}

/// Whether the parent chain from `x` reaches the root.
pub open spec fn rooted(s: Seq<NodeView>, x: u64) -> bool {
    exists|n: nat| #[trigger] up(s, Some(x), n) is None
}

/// Whether `x` lies in the subtree rooted at `r` (`r` included).
pub open spec fn in_subtree(s: Seq<NodeView>, r: u64, x: u64) -> bool {
    x == r || is_anc(s, r, x)
}

/// Once the chain reaches the root it stays there.
pub proof fn lemma_up_root(s: Seq<NodeView>, start: Option<u64>, n: nat, m: nat)
    requires
        up(s, start, n) is None,
        n <= m,
    ensures
        up(s, start, m) is None,
    decreases n,
{
    if n > 0 {
        match start {
            None => {},
            Some(x) => lemma_up_root(s, parent_of(s, x), (n - 1) as nat, (m - 1) as nat),
        }
    } else {
        lemma_up_none(s, m);
    }
}

/// From the root every chain stays at the root.
pub proof fn lemma_up_none(s: Seq<NodeView>, m: nat)
    ensures
        up(s, None, m) is None,
{
}

/// Walking `a` steps, then `b` more, is walking `a + b` steps.
pub proof fn lemma_up_add(s: Seq<NodeView>, start: Option<u64>, a: nat, b: nat)
    ensures
        up(s, start, a + b) == up(s, up(s, start, a), b),
    decreases a,
{
    if a > 0 {
        match start {
            None => {
                lemma_up_none(s, b);
                lemma_up_none(s, a + b);
            },
            Some(x) => {
                lemma_up_add(s, parent_of(s, x), (a - 1) as nat, b);
                assert((a + b - 1) as nat == ((a - 1) as nat + b) as nat);
            },
        }
    }
}

/// One more step from wherever `n` steps lead.
pub proof fn lemma_up_step(s: Seq<NodeView>, start: Option<u64>, n: nat)
    ensures
        up(s, start, n + 1) == match up(s, start, n) {
            None => None,
            Some(y) => parent_of(s, y),
        },
{
    lemma_up_add(s, start, n, 1);
    match up(s, start, n) {
        None => {},
        Some(y) => {
            assert(up(s, parent_of(s, y), 0) == parent_of(s, y));
        },
    }
}

/// How the mirror stores a value sent by the client, given its nodes `s`.
pub open spec fn resolve_in(s: Seq<NodeView>, value: DomValue) -> StoredView {
    match value {
        DomValue::Ref(id) => StoredView::Ref(key_of(s, id@)),
        DomValue::Content(ContentValue::Object(id)) => StoredView::ContentRef(key_of(s, id@)),
        _ => StoredView::Value(value),
    }
}

/// Property changes applied in order: a value is stored (resolved against
/// `s`), a `None` forgets the key.
pub open spec fn set_props(
    m: Map<Seq<char>, StoredView>,
    s: Seq<NodeView>,
    changes: Seq<(String, Option<DomValue>)>,
) -> Map<Seq<char>, StoredView>
    decreases changes.len(),
{
    if changes.len() == 0 {
        m
    } else {
        let before = set_props(m, s, changes.drop_last());
        let (key, change) = changes.last();
        match change {
            Some(value) => before.insert(key@, resolve_in(s, value)),
            None => before.remove(key@),
        }
    }
}

/// Attribute changes applied in order: attribute-safe values are stored, other
/// values skipped, a `None` forgets the key.
pub open spec fn merge_attrs(m: Map<Seq<char>, DomValue>, changes: Seq<(String, Option<DomValue>)>) -> Map<
    Seq<char>,
    DomValue,
>
    decreases changes.len(),
{
    if changes.len() == 0 {
        m
    } else {
        let before = merge_attrs(m, changes.drop_last());
        let (key, change) = changes.last();
        match change {
            Some(value) => if spec_is_attribute_safe(value) {
                before.insert(key@, value)
            } else {
                before
            },
            None => before.remove(key@),
        }
    }
}

/// The attribute store held under `Attributes`, empty when there is none.
pub open spec fn attrs_of(stored: Option<StoredView>) -> Map<Seq<char>, DomValue> {
    match stored {
        Some(StoredView::Attributes(a)) => a,
        _ => Map::empty(),
    }
}

/// The tag set held under `Tags`, empty when there is none.
pub open spec fn tags_of(stored: Option<StoredView>) -> Seq<Seq<char>> {
    match stored {
        Some(StoredView::Tags(t)) => t,
        _ => Seq::empty(),
    }
}

/// The text of each tag.
pub open spec fn tag_names(t: Seq<String>) -> Seq<Seq<char>> {
    t.map_values(|x: String| x@)
}

/// The tags of `tags` that `remove` does not name, in order.
pub open spec fn retain_tags(tags: Seq<Seq<char>>, remove: Seq<Seq<char>>) -> Seq<Seq<char>>
    decreases tags.len(),
{
    if tags.len() == 0 {
        tags
    } else {
        let before = retain_tags(tags.drop_last(), remove);
        if remove.contains(tags.last()) {
            before
        } else {
            before.push(tags.last())
        }
    }
}

/// `tags` with each tag of `add` appended unless already present.
pub open spec fn add_tags(tags: Seq<Seq<char>>, add: Seq<Seq<char>>) -> Seq<Seq<char>>
    decreases add.len(),
{
    if add.len() == 0 {
        tags
    } else {
        let before = add_tags(tags, add.drop_last());
        if before.contains(add.last()) {
            before
        } else {
            before.push(add.last())
        }
    }
}

/// A node's stored values after merging property, attribute and tag changes
/// into `m`, resolving references against `s`.
pub open spec fn merged_values(
    m: Map<Seq<char>, StoredView>,
    s: Seq<NodeView>,
    properties: Seq<(String, Option<DomValue>)>,
    attributes: Seq<(String, Option<DomValue>)>,
    tags: TagChange,
) -> Map<Seq<char>, StoredView> {
    let m1 = set_props(m, s, properties);
    let m2 = if attributes.len() > 0 {
        m1.insert(
            "Attributes"@,
            StoredView::Attributes(merge_attrs(attrs_of(assoc_lookup(m1, "Attributes"@)), attributes)),
        )
    } else {
        m1
    };
    match tags {
        TagChange::Keep => m2,
        TagChange::Replace(t) => m2.insert("Tags"@, StoredView::Tags(tag_names(t@))),
        TagChange::Delta { add, remove } => m2.insert(
            "Tags"@,
            StoredView::Tags(
                add_tags(retain_tags(tags_of(assoc_lookup(m2, "Tags"@)), tag_names(remove@)), tag_names(add@)),
            ),
        ),
    }
}

/// Two node lists that agree on every key and id.
pub open spec fn same_ids(s1: Seq<NodeView>, s2: Seq<NodeView>) -> bool {
    &&& s1.len() == s2.len()
    &&& forall|i: int| 0 <= i < s1.len() ==> s1[i].key == s2[i].key && s1[i].id == s2[i].id
}

/// Id lookups see only keys and ids.
pub proof fn lemma_same_ids(s1: Seq<NodeView>, s2: Seq<NodeView>, id: Seq<char>)
    requires
        same_ids(s1, s2),
    ensures
        key_of(s1, id) == key_of(s2, id),
        id_pos(s1, id) == id_pos(s2, id),
{
    lemma_id_pos(s1, id);
    lemma_id_pos(s2, id);
}

/// Key lookups see only keys.
pub proof fn lemma_same_keys(s1: Seq<NodeView>, s2: Seq<NodeView>, key: u64)
    requires
        same_ids(s1, s2),
    ensures
        key_pos(s1, key) == key_pos(s2, key),
{
    lemma_key_pos(s1, key);
    lemma_key_pos(s2, key);
}

/// The stored value of a property list, looked up by name.
proof fn lemma_values_lookup(props: Seq<(String, MirrorValue)>, key: Seq<char>)
    ensures
        assoc_lookup(values_of(props), key) == match assoc_lookup(assoc_map(props), key) {
            Some(v) => Some(v@),
            None => None,
        },
{
}

/// Whether `t` is among `list`.
fn contains_tag(list: &Vec<String>, t: &String) -> (r: bool)
    ensures
        r == tag_names(list@).contains(t@),
{
    let mut i: usize = 0;
    while i < list.len()
        invariant
            i <= list@.len(),
            forall|j: int| 0 <= j < i ==> list@[j]@ != t@,
        decreases list@.len() - i,
    {
        if list[i] == *t {
            assert(tag_names(list@)[i as int] == t@);
            return true;
        }
        i = i + 1;
    }
    proof {
        if tag_names(list@).contains(t@) {
            let j = choose|j: int| 0 <= j < tag_names(list@).len() && tag_names(list@)[j] == t@;
            assert(list@[j]@ == t@);
        }
    }
    false
}

/// The tags of `tags` not named in `remove`, in order.
fn retain_absent(tags: Vec<String>, remove: &Vec<String>) -> (r: Vec<String>)
    ensures
        tag_names(r@) == retain_tags(tag_names(tags@), tag_names(remove@)),
{
    let mut all = tags;
    let ghost source = all@;
    let mut kept: Vec<String> = Vec::new();
    while all.len() > 0
        invariant
            all@.len() <= source.len(),
            all@ == source.skip(source.len() - all@.len()),
            tag_names(kept@) == retain_tags(
                tag_names(source.take(source.len() - all@.len())),
                tag_names(remove@),
            ),
        decreases all@.len(),
    {
        let ghost done = source.len() - all@.len();
        let tag = all.remove(0);
        proof {
            assert(tag == source[done]);
            assert(tag_names(source.take(done + 1)).drop_last() =~= tag_names(source.take(done)));
            assert(tag_names(source.take(done + 1)).last() == tag@);
            assert(all@ =~= source.skip(done + 1));
        }
        let gone = contains_tag(remove, &tag);
        if !gone {
            let ghost before = kept@;
            kept.push(tag);
            assert(tag_names(kept@) =~= tag_names(before).push(tag@));
        }
    }
    assert(source.take(source.len() as int) =~= source);
    kept
}

/// `tags` with each of `add` appended unless already present.
fn add_absent(tags: Vec<String>, add: Vec<String>) -> (r: Vec<String>)
    ensures
        tag_names(r@) == add_tags(tag_names(tags@), tag_names(add@)),
{
    let mut cur = tags;
    let mut all = add;
    let ghost start = cur@;
    let ghost source = all@;
    assert(tag_names(source.take(0)) =~= Seq::<Seq<char>>::empty());
    while all.len() > 0
        invariant
            all@.len() <= source.len(),
            all@ == source.skip(source.len() - all@.len()),
            tag_names(cur@) == add_tags(tag_names(start), tag_names(source.take(source.len() - all@.len()))),
        decreases all@.len(),
    {
        let ghost done = source.len() - all@.len();
        let tag = all.remove(0);
        proof {
            assert(tag == source[done]);
            assert(tag_names(source.take(done + 1)).drop_last() =~= tag_names(source.take(done)));
            assert(tag_names(source.take(done + 1)).last() == tag@);
            assert(all@ =~= source.skip(done + 1));
        }
        let present = contains_tag(&cur, &tag);
        if !present {
            let ghost before = cur@;
            cur.push(tag);
            assert(tag_names(cur@) =~= tag_names(before).push(tag@));
        }
    }
    assert(source.take(source.len() as int) =~= source);
    cur
}

/// Apply attribute changes to an attribute store.
fn merge_attr_changes(store: &mut Vec<(String, DomValue)>, attributes: Vec<(String, Option<DomValue>)>)
    ensures
        assoc_map(final(store)@) == merge_attrs(assoc_map(old(store)@), attributes@),
{
    let ghost m0 = assoc_map(store@);
    let mut all = attributes;
    let ghost source = all@;
    assert(source.take(0) =~= Seq::<(String, Option<DomValue>)>::empty());
    while all.len() > 0
        invariant
            all@.len() <= source.len(),
            all@ == source.skip(source.len() - all@.len()),
            assoc_map(store@) == merge_attrs(m0, source.take(source.len() - all@.len())),
        decreases all@.len(),
    {
        let ghost done = source.len() - all@.len();
        let (key, change) = all.remove(0);
        proof {
            assert(source.take(done + 1).drop_last() =~= source.take(done));
            assert(source.take(done + 1).last() == (key, change));
            assert(all@ =~= source.skip(done + 1));
        }
        match change {
            Some(value) => {
                if value.is_attribute_safe() {
                    assoc_set(store, key, value);
                }
            },
            None => {
                assoc_remove(store, &key);
            },
        }
    }
    assert(source.take(source.len() as int) =~= source);
}

/// Property changes resolve the same against node lists with the same keys
/// and ids.
proof fn lemma_set_props_same_ids(
    m: Map<Seq<char>, StoredView>,
    s1: Seq<NodeView>,
    s2: Seq<NodeView>,
    changes: Seq<(String, Option<DomValue>)>,
)
    requires
        same_ids(s1, s2),
    ensures
        set_props(m, s1, changes) == set_props(m, s2, changes),
    decreases changes.len(),
{
    if changes.len() > 0 {
        lemma_set_props_same_ids(m, s1, s2, changes.drop_last());
        match changes.last().1 {
            Some(value) => match value {
                DomValue::Ref(id) => lemma_same_ids(s1, s2, id@),
                DomValue::Content(ContentValue::Object(id)) => lemma_same_ids(s1, s2, id@),
                _ => {},
            },
            None => {},
        }
    }
}

/// The mirror's bookkeeping is consistent: keys and ids are unique, every key
/// was drawn below `next_key`, every parent is a mirrored node, and every
/// parent chain ends at the root.
pub open spec fn nodes_wf(s: Seq<NodeView>, next_key: u64) -> bool {
    &&& keys_unique(s)
    &&& ids_unique(s)
    &&& forall|i: int| 0 <= i < s.len() ==> s[i].key < next_key
    &&& forall|i: int| 0 <= i < s.len() ==> (#[trigger] s[i].parent matches Some(p) ==> has_key(s, p))
    &&& forall|i: int| 0 <= i < s.len() ==> rooted(s, #[trigger] s[i].key)
}

/// The reparent requests of a list, by node key (a later entry wins).
pub open spec fn pending_map(p: Seq<(u64, Option<u64>)>) -> Map<u64, Option<u64>>
    decreases p.len(),
{
    if p.len() == 0 {
        Map::empty()
    } else {
        pending_map(p.drop_last()).insert(p.last().0, p.last().1)
    }
}

/// Each node waits on at most one reparent request.
pub open spec fn pending_unique(p: Seq<(u64, Option<u64>)>) -> bool {
    forall|i: int, j: int| 0 <= i < p.len() && 0 <= j < p.len() && i != j ==> p[i].0 != p[j].0
}

/// The mirror of one client's DataModel.
#[derive(Debug)]
pub struct SessionDom {
    nodes: Vec<MirrorNode>,
    pending: Vec<(u64, Option<u64>)>,
    next_key: u64,
}

impl SessionDom {
    /// The mirrored nodes, in the order they were last attached to a parent.
    pub closed spec fn nodes(&self) -> Seq<NodeView> {
        self.nodes@.map_values(|n: MirrorNode| n@)
    }

    /// Reparent requests still waiting: node key to requested parent key
    /// (`None`: the root).
    pub closed spec fn pending(&self) -> Map<u64, Option<u64>> {
        pending_map(self.pending@)
    }

    /// The key the next mirrored node gets.
    pub closed spec fn next_key(&self) -> u64 {
        self.next_key
    }

    /// The request list holds one entry per node.
    pub closed spec fn pending_ok(&self) -> bool {
        pending_unique(self.pending@)
    }

    /// The mirror's invariant.
    pub open spec fn wf(&self) -> bool {
        nodes_wf(self.nodes(), self.next_key()) && self.pending_ok()
    }

    /// An empty mirror.
    pub fn new() -> (r: Self)
        ensures
            r.wf(),
            r.nodes() == Seq::<NodeView>::empty(),
            r.pending() == Map::<u64, Option<u64>>::empty(),
            r.next_key() == 0,
    {
        let r = SessionDom { nodes: Vec::new(), pending: Vec::new(), next_key: 0 };
        assert(r.nodes() =~= Seq::<NodeView>::empty());
        r
    }

    /// The position of the node mirroring `id`.
    fn position_of(&self, id: &String) -> (r: Option<usize>)
        ensures
            match r {
                Some(i) => id_pos(self.nodes(), id@) == Some(i as int) && i < self.nodes().len(),
                None => id_pos(self.nodes(), id@) is None,
            },
    {
        let ghost s = self.nodes();
        proof {
            lemma_id_pos(s, id@);
        }
        let mut i: usize = 0;
        while i < self.nodes.len()
            invariant
                s == self.nodes(),
                s.len() == self.nodes@.len(),
                i <= s.len(),
                forall|j: int| 0 <= j < i ==> s[j].id != id@,
                match id_pos(s, id@) {
                    Some(f) => 0 <= f < s.len() && s[f].id == id@ && forall|j: int|
                        0 <= j < f ==> s[j].id != id@,
                    None => forall|j: int| 0 <= j < s.len() ==> s[j].id != id@,
                },
            decreases s.len() - i,
        {
            assert(s[i as int] == self.nodes@[i as int]@);
            if self.nodes[i].id == *id {
                return Some(i);
            }
            i = i + 1;
        }
        None
    }

    /// The position of the node with `key`.
    fn position_of_key(&self, key: u64) -> (r: Option<usize>)
        ensures
            match r {
                Some(i) => key_pos(self.nodes(), key) == Some(i as int) && i < self.nodes().len(),
                None => key_pos(self.nodes(), key) is None,
            },
    {
        let ghost s = self.nodes();
        proof {
            lemma_key_pos(s, key);
        }
        let mut i: usize = 0;
        while i < self.nodes.len()
            invariant
                s == self.nodes(),
                s.len() == self.nodes@.len(),
                i <= s.len(),
                forall|j: int| 0 <= j < i ==> s[j].key != key,
                match key_pos(s, key) {
                    Some(f) => 0 <= f < s.len() && s[f].key == key && forall|j: int|
                        0 <= j < f ==> s[j].key != key,
                    None => forall|j: int| 0 <= j < s.len() ==> s[j].key != key,
                },
            decreases s.len() - i,
        {
            assert(s[i as int] == self.nodes@[i as int]@);
            if self.nodes[i].key == key {
                return Some(i);
            }
            i = i + 1;
        }
        None
    }

    /// The key of the node mirroring `id`.
    fn key_for(&self, id: &String) -> (r: Option<u64>)
        ensures
            r == key_of(self.nodes(), id@),
    {
        match self.position_of(id) {
            Some(i) => {
                assert(self.nodes()[i as int] == self.nodes@[i as int]@);
                Some(self.nodes[i].key)
            },
            None => None,
        }
    }

    /// How a value sent by the client is stored: references resolve to the
    /// mirrored node's key, or to null.
    fn resolve(&self, value: DomValue) -> (r: MirrorValue)
        ensures
            r@ == resolve_in(self.nodes(), value),
    {
        match value {
            DomValue::Ref(id) => MirrorValue::Ref(self.key_for(&id)),
            DomValue::Content(ContentValue::Object(id)) => MirrorValue::ContentRef(self.key_for(&id)),
            other => MirrorValue::Value(other),
        }
    }

    /// Merge property, attribute and tag changes into a property list,
    /// resolving references against this mirror.
    fn merge_into(
        &self,
        props: &mut Vec<(String, MirrorValue)>,
        properties: Vec<(String, Option<DomValue>)>,
        attributes: Vec<(String, Option<DomValue>)>,
        tags: TagChange,
    )
        ensures
            values_of(final(props)@) == merged_values(
                values_of(old(props)@),
                self.nodes(),
                properties@,
                attributes@,
                tags,
            ),
    {
        let ghost m0 = values_of(props@);
        let ghost s = self.nodes();
        let ghost attribute_changes = attributes@;
        // Properties, in order.
        let mut all = properties;
        let ghost source = all@;
        assert(source.take(0) =~= Seq::<(String, Option<DomValue>)>::empty());
        while all.len() > 0
            invariant
                s == self.nodes(),
                all@.len() <= source.len(),
                all@ == source.skip(source.len() - all@.len()),
                values_of(props@) == set_props(m0, s, source.take(source.len() - all@.len())),
            decreases all@.len(),
        {
            let ghost done = source.len() - all@.len();
            let ghost before = props@;
            let (key, change) = all.remove(0);
            proof {
                assert(source.take(done + 1).drop_last() =~= source.take(done));
                assert(source.take(done + 1).last() == (key, change));
                assert(all@ =~= source.skip(done + 1));
            }
            match change {
                Some(value) => {
                    let stored = self.resolve(value);
                    let ghost k = key@;
                    let ghost v = stored@;
                    assoc_set(props, key, stored);
                    assert(values_of(props@) =~= values_of(before).insert(k, v));
                },
                None => {
                    assoc_remove(props, &key);
                    assert(values_of(props@) =~= values_of(before).remove(key@));
                },
            }
        }
        assert(source.take(source.len() as int) =~= source);
        let ghost m1 = values_of(props@);
        // The attribute store, merged key by key.
        if attributes.len() > 0 {
            let attrs_key = "Attributes".to_owned();
            let ghost before = props@;
            let existing = assoc_take(props, &attrs_key);
            proof {
                lemma_values_lookup(before, attrs_key@);
            }
            let mut store: Vec<(String, DomValue)> = match existing {
                Some(MirrorValue::Attributes(a)) => a,
                _ => Vec::new(),
            };
            assert(assoc_map(store@) == attrs_of(assoc_lookup(m1, "Attributes"@))) by {
                if !(existing matches Some(MirrorValue::Attributes(_))) {
                    assert(assoc_map(store@) =~= Map::<Seq<char>, DomValue>::empty());
                }
            }
            merge_attr_changes(&mut store, attributes);
            let ghost taken = props@;
            let ghost v = MirrorValue::Attributes(store)@;
            assoc_set(props, attrs_key, MirrorValue::Attributes(store));
            assert(values_of(props@) =~= m1.insert("Attributes"@, v));
        }
        let ghost m2 = values_of(props@);
        assert(m2 == if attribute_changes.len() > 0 {
            m1.insert(
                "Attributes"@,
                StoredView::Attributes(merge_attrs(attrs_of(assoc_lookup(m1, "Attributes"@)), attribute_changes)),
            )
        } else {
            m1
        });
        // The tag set.
        match tags {
            TagChange::Keep => {},
            TagChange::Replace(t) => {
                let ghost v = MirrorValue::Tags(t)@;
                assoc_set(props, "Tags".to_owned(), MirrorValue::Tags(t));
                assert(values_of(props@) =~= m2.insert("Tags"@, v));
            },
            TagChange::Delta { add, remove } => {
                let tags_key = "Tags".to_owned();
                let ghost before = props@;
                let existing = assoc_take(props, &tags_key);
                proof {
                    lemma_values_lookup(before, tags_key@);
                }
                let current: Vec<String> = match existing {
                    Some(MirrorValue::Tags(t)) => t,
                    _ => Vec::new(),
                };
                assert(tag_names(current@) == tags_of(assoc_lookup(m2, "Tags"@))) by {
                    if !(existing matches Some(MirrorValue::Tags(_))) {
                        assert(tag_names(current@) =~= Seq::<Seq<char>>::empty());
                    }
                }
                let kept = retain_absent(current, &remove);
                let merged = add_absent(kept, add);
                let ghost v = MirrorValue::Tags(merged)@;
                assoc_set(props, tags_key, MirrorValue::Tags(merged));
                assert(values_of(props@) =~= m2.insert("Tags"@, v));
            },
        }
    }
}

/// Two node lists that agree on every key, id and parent.
pub open spec fn same_tree(s1: Seq<NodeView>, s2: Seq<NodeView>) -> bool {
    &&& same_ids(s1, s2)
    &&& forall|i: int| 0 <= i < s1.len() ==> s1[i].parent == s2[i].parent
}

/// Parent chains see only keys and parents.
proof fn lemma_same_tree_up(s1: Seq<NodeView>, s2: Seq<NodeView>, start: Option<u64>, n: nat)
    requires
        same_tree(s1, s2),
    ensures
        up(s1, start, n) == up(s2, start, n),
    decreases n,
{
    if n > 0 {
        if let Some(x) = start {
            lemma_same_keys(s1, s2, x);
            lemma_key_pos(s1, x);
            if has_key(s1, x) {
                let i = key_pos(s1, x)->0;
                assert(s1[i].parent == s2[i].parent);
            }
            assert(parent_of(s1, x) == parent_of(s2, x));
            lemma_same_tree_up(s1, s2, parent_of(s1, x), (n - 1) as nat);
        }
    }
}

/// The invariant sees only keys, ids and parents.
proof fn lemma_same_tree_wf(s1: Seq<NodeView>, s2: Seq<NodeView>, next_key: u64)
    requires
        same_tree(s1, s2),
        nodes_wf(s1, next_key),
    ensures
        nodes_wf(s2, next_key),
{
    assert forall|i: int| 0 <= i < s2.len() implies (#[trigger] s2[i].parent matches Some(p) ==> has_key(
        s2,
        p,
    )) by {
        if let Some(p) = s2[i].parent {
            assert(s1[i].parent == Some(p));
            lemma_same_keys(s1, s2, p);
        }
    }
    assert forall|i: int| 0 <= i < s2.len() implies rooted(s2, #[trigger] s2[i].key) by {
        assert(rooted(s1, s1[i].key));
        let n = choose|n: nat| #[trigger] up(s1, Some(s1[i].key), n) is None;
        lemma_same_tree_up(s1, s2, Some(s1[i].key), n);
        assert(up(s2, Some(s2[i].key), n) is None);
    }
}

/// A node with its values replaced.
pub open spec fn with_values(n: NodeView, values: Map<Seq<char>, StoredView>) -> NodeView {
    NodeView { values, ..n }
}

/// A node moved under `parent`.
pub open spec fn with_parent(n: NodeView, parent: Option<u64>) -> NodeView {
    NodeView { parent, ..n }
}

/// Taking a node out and appending it again keeps keys and ids unique, and
/// every lookup but the moved node's own.
proof fn lemma_moved_key(s: Seq<NodeView>, idx: int, n2: NodeView, y: u64)
    requires
        keys_unique(s),
        ids_unique(s),
        0 <= idx < s.len(),
        n2.key == s[idx].key,
        n2.id == s[idx].id,
    ensures
        keys_unique(s.remove(idx).push(n2)),
        ids_unique(s.remove(idx).push(n2)),
        has_key(s.remove(idx).push(n2), y) == has_key(s, y),
        has_key(s, y) && y != n2.key ==> node_of(s.remove(idx).push(n2), y) == node_of(s, y),
        node_of(s.remove(idx).push(n2), n2.key) == n2,
{
    let t = s.remove(idx).push(n2);
    let last = s.len() - 1;
    assert(t.len() == s.len());
    assert(forall|j: int| 0 <= j < idx ==> t[j] == s[j]);
    assert(forall|j: int| idx <= j < last ==> t[j] == s[j + 1]);
    assert(t[last] == n2);
    assert(keys_unique(t)) by {
        assert forall|i: int, j: int| 0 <= i < t.len() && 0 <= j < t.len() && i != j implies t[i].key
            != t[j].key by {
            let si = if i < idx {
                i
            } else if i < last {
                i + 1
            } else {
                idx
            };
            let sj = if j < idx {
                j
            } else if j < last {
                j + 1
            } else {
                idx
            };
            assert(t[i].key == s[si].key);
            assert(t[j].key == s[sj].key);
        }
    }
    assert(ids_unique(t)) by {
        assert forall|i: int, j: int| 0 <= i < t.len() && 0 <= j < t.len() && i != j implies t[i].id
            != t[j].id by {
            let si = if i < idx {
                i
            } else if i < last {
                i + 1
            } else {
                idx
            };
            let sj = if j < idx {
                j
            } else if j < last {
                j + 1
            } else {
                idx
            };
            assert(t[i].id == s[si].id);
            assert(t[j].id == s[sj].id);
        }
    }
    lemma_key_at(t, last);
    if has_key(s, y) {
        lemma_key_pos(s, y);
        let j = key_pos(s, y)->0;
        let tj = if j < idx {
            j
        } else if j == idx {
            last
        } else {
            j - 1
        };
        lemma_key_at(t, tj);
    } else {
        lemma_key_pos(s, y);
        if y == n2.key {
            assert(s[idx].key == y);
        }
        assert forall|j: int| 0 <= j < t.len() implies t[j].key != y by {
            if j < idx {
            } else if j < last {
                assert(t[j] == s[j + 1]);
            } else {
                assert(s[idx].key == n2.key);
            }
        }
        lemma_key_absent(t, y);
    }
}

/// Where the parent links of two lists differ only at `k`, chains that avoid
/// `k` are the same in both.
proof fn lemma_path_avoiding(s: Seq<NodeView>, s2: Seq<NodeView>, k: u64, start: Option<u64>, n: nat)
    requires
        forall|y: u64| y != k ==> #[trigger] parent_of(s2, y) == parent_of(s, y),
        forall|m: nat| m < n ==> #[trigger] up(s, start, m) != Some(k),
    ensures
        up(s2, start, n) == up(s, start, n),
    decreases n,
{
    if n > 0 {
        if let Some(y) = start {
            assert(up(s, start, 0) != Some(k));
            let q = parent_of(s, y);
            assert(parent_of(s2, y) == q);
            assert forall|m: nat| m < (n - 1) as nat implies #[trigger] up(s, q, m) != Some(k) by {
                assert(up(s, start, m + 1) != Some(k));
                assert(up(s, start, m + 1) == up(s, q, m));
            }
            lemma_path_avoiding(s, s2, k, q, (n - 1) as nat);
        }
    }
}

/// Moving `k` under a parent outside its subtree keeps every chain ending at
/// the root: returns a length within which the chain from `start` does.
proof fn lemma_rooted_after_move(
    s: Seq<NodeView>,
    s2: Seq<NodeView>,
    k: u64,
    p: Option<u64>,
    start: Option<u64>,
    n: nat,
) -> (n2: nat)
    requires
        forall|y: u64| y != k ==> #[trigger] parent_of(s2, y) == parent_of(s, y),
        parent_of(s2, k) == p,
        p matches Some(pk) ==> pk != k && !is_anc(s, k, pk) && rooted(s, pk),
        up(s, start, n) is None,
    ensures
        up(s2, start, n2) is None,
    decreases n,
{
    if n == 0 {
        0
    } else {
        match start {
            None => 0,
            Some(y) => {
                if y == k {
                    match p {
                        None => {
                            assert(up(s2, start, 1) == up(s2, None, 0));
                            1
                        },
                        Some(pk) => {
                            let np = choose|np: nat| #[trigger] up(s, Some(pk), np) is None;
                            assert forall|m: nat| m < np implies #[trigger] up(s, Some(pk), m) != Some(k) by {
                                if m >= 1 {
                                    assert(!(m >= 1 && up(s, Some(pk), m) == Some(k)));
                                }
                            }
                            lemma_path_avoiding(s, s2, k, Some(pk), np);
                            assert(up(s2, start, np + 1) == up(s2, Some(pk), np));
                            np + 1
                        },
                    }
                } else {
                    let q = parent_of(s, y);
                    let n3 = lemma_rooted_after_move(s, s2, k, p, q, (n - 1) as nat);
                    assert(up(s2, start, n3 + 1) == up(s2, q, n3));
                    n3 + 1
                }
            },
        }
    }
}

impl SessionDom {
    /// The parent of the node with `key`.
    fn parent_key(&self, key: u64) -> (r: Option<u64>)
        ensures
            r == parent_of(self.nodes(), key),
    {
        match self.position_of_key(key) {
            Some(i) => {
                assert(self.nodes()[i as int] == self.nodes@[i as int]@);
                self.nodes[i].parent
            },
            None => None,
        }
    }

    /// Whether `a` is a proper ancestor of the mirrored node `x`.
    fn is_ancestor(&self, a: u64, x: u64) -> (r: bool)
        requires
            self.wf(),
            has_key(self.nodes(), x),
        ensures
            r == is_anc(self.nodes(), a, x),
    {
        let ghost s = self.nodes();
        proof {
            lemma_key_pos(s, x);
            let i = key_pos(s, x)->0;
            assert(rooted(s, s[i].key));
        }
        let ghost f = choose|n: nat| #[trigger] up(s, Some(x), n) is None;
        let mut cur = self.parent_key(x);
        let ghost mut n: nat = 1;
        assert(up(s, Some(x), 1) == up(s, parent_of(s, x), 0));
        while cur.is_some()
            invariant
                s == self.nodes(),
                n >= 1,
                cur == up(s, Some(x), n),
                up(s, Some(x), f) is None,
                forall|m: nat| 1 <= m < n ==> #[trigger] up(s, Some(x), m) != Some(a),
            decreases f - n,
        {
            proof {
                if n >= f {
                    lemma_up_root(s, Some(x), f, n);
                }
            }
            let y = cur.unwrap();
            if y == a {
                return true;
            }
            cur = self.parent_key(y);
            proof {
                lemma_up_step(s, Some(x), n);
                n = n + 1;
            }
        }
        assert forall|m: nat| m >= 1 implies #[trigger] up(s, Some(x), m) != Some(a) by {
            if m >= n {
                lemma_up_root(s, Some(x), n, m);
            }
        }
        false
    }

    /// Merge value changes into the node at `idx`.
    fn merge_at(
        &mut self,
        idx: usize,
        properties: Vec<(String, Option<DomValue>)>,
        attributes: Vec<(String, Option<DomValue>)>,
        tags: TagChange,
    )
        requires
            old(self).wf(),
            idx < old(self).nodes().len(),
        ensures
            final(self).wf(),
            final(self).nodes() == old(self).nodes().update(
                idx as int,
                with_values(
                    old(self).nodes()[idx as int],
                    merged_values(
                        old(self).nodes()[idx as int].values,
                        old(self).nodes(),
                        properties@,
                        attributes@,
                        tags,
                    ),
                ),
            ),
            final(self).pending() == old(self).pending(),
            final(self).next_key() == old(self).next_key(),
    {
        let ghost s0 = self.nodes();
        let ghost p0 = self.pending@;
        let mut props: Vec<(String, MirrorValue)> = Vec::new();
        std::mem::swap(&mut props, &mut self.nodes[idx].properties);
        let ghost old_props = props@;
        assert(s0[idx as int].values == values_of(old_props));
        proof {
            assert(same_ids(s0, self.nodes()));
            lemma_set_props_same_ids(values_of(old_props), s0, self.nodes(), properties@);
        }
        self.merge_into(&mut props, properties, attributes, tags);
        let ghost merged = props@;
        std::mem::swap(&mut props, &mut self.nodes[idx].properties);
        let ghost target = with_values(s0[idx as int], values_of(merged));
        assert(self.nodes() =~= s0.update(idx as int, target));
        proof {
            lemma_same_tree_wf(s0, self.nodes(), self.next_key);
        }
    }

    /// Move the node at `idx` under `parent`, appending it to the node list.
    fn transfer(&mut self, idx: usize, parent: Option<u64>)
        requires
            old(self).wf(),
            idx < old(self).nodes().len(),
            parent matches Some(pk) ==> has_key(old(self).nodes(), pk) && pk != old(self).nodes()[idx as int].key
                && !is_anc(old(self).nodes(), old(self).nodes()[idx as int].key, pk),
        ensures
            final(self).wf(),
            final(self).nodes() == old(self).nodes().remove(idx as int).push(
                with_parent(old(self).nodes()[idx as int], parent),
            ),
            final(self).pending@ == old(self).pending@,
            final(self).next_key() == old(self).next_key(),
    {
        let ghost s = self.nodes();
        let ghost k = s[idx as int].key;
        let ghost n2 = with_parent(s[idx as int], parent);
        let mut node = self.nodes.remove(idx);
        node.parent = parent;
        self.nodes.push(node);
        let ghost t = self.nodes();
        assert(t =~= s.remove(idx as int).push(n2));
        proof {
            lemma_moved_key(s, idx as int, n2, k);
            assert forall|y: u64| y != k implies #[trigger] parent_of(t, y) == parent_of(s, y) by {
                lemma_moved_key(s, idx as int, n2, y);
            }
            assert(parent_of(t, k) == parent);
            let last = s.len() - 1;
            assert forall|i: int| 0 <= i < t.len() implies t[i].key < self.next_key by {
                if i < idx {
                    assert(t[i] == s[i]);
                } else if i < last {
                    assert(t[i] == s[i + 1]);
                }
            }
            assert forall|i: int| 0 <= i < t.len() implies (#[trigger] t[i].parent matches Some(p)
                ==> has_key(t, p)) by {
                if i < idx {
                    assert(t[i] == s[i]);
                } else if i < last {
                    assert(t[i] == s[i + 1]);
                }
                if let Some(p) = t[i].parent {
                    lemma_moved_key(s, idx as int, n2, p);
                }
            }
            if let Some(pk) = parent {
                lemma_key_pos(s, pk);
                let j = key_pos(s, pk)->0;
                assert(rooted(s, s[j].key));
            }
            assert forall|i: int| 0 <= i < t.len() implies rooted(t, #[trigger] t[i].key) by {
                let si = if i < idx {
                    i
                } else if i < last {
                    i + 1
                } else {
                    idx as int
                };
                assert(t[i].key == s[si].key);
                assert(rooted(s, s[si].key));
                let n = choose|n: nat| #[trigger] up(s, Some(s[si].key), n) is None;
                let n3 = lemma_rooted_after_move(s, t, k, parent, Some(t[i].key), n);
                assert(up(t, Some(t[i].key), n3) is None);
            }
        }
    }
}

/// The map of a request list holds each entry of it.
proof fn lemma_pending_index(ps: Seq<(u64, Option<u64>)>, i: int)
    requires
        pending_unique(ps),
        0 <= i < ps.len(),
    ensures
        pending_map(ps).contains_key(ps[i].0),
        pending_map(ps)[ps[i].0] == ps[i].1,
    decreases ps.len(),
{
    if i < ps.len() - 1 {
        lemma_pending_index(ps.drop_last(), i);
    }
}

/// A key no entry names is not in the map.
proof fn lemma_pending_absent(ps: Seq<(u64, Option<u64>)>, k: u64)
    requires
        forall|i: int| 0 <= i < ps.len() ==> ps[i].0 != k,
    ensures
        !pending_map(ps).contains_key(k),
    decreases ps.len(),
{
    if ps.len() > 0 {
        lemma_pending_absent(ps.drop_last(), k);
    }
}

/// Popping the last request drops its key from the map.
proof fn lemma_pending_pop(ps: Seq<(u64, Option<u64>)>)
    requires
        pending_unique(ps),
        ps.len() > 0,
    ensures
        pending_map(ps.drop_last()) == pending_map(ps).remove(ps.last().0),
        pending_unique(ps.drop_last()),
        pending_map(ps).contains_key(ps.last().0),
        pending_map(ps)[ps.last().0] == ps.last().1,
{
    let init = ps.drop_last();
    assert forall|i: int| 0 <= i < init.len() implies init[i].0 != ps.last().0 by {
        assert(init[i] == ps[i]);
    }
    lemma_pending_absent(init, ps.last().0);
    assert(pending_map(init) =~= pending_map(ps).remove(ps.last().0));
}

/// Appending a request for a key not yet waiting keeps one entry per key.
proof fn lemma_pending_push(ps: Seq<(u64, Option<u64>)>, e: (u64, Option<u64>))
    requires
        pending_unique(ps),
        !pending_map(ps).contains_key(e.0),
    ensures
        pending_unique(ps.push(e)),
        pending_map(ps.push(e)) == pending_map(ps).insert(e.0, e.1),
{
    assert forall|i: int| 0 <= i < ps.len() implies ps[i].0 != e.0 by {
        lemma_pending_index(ps, i);
    }
    assert(ps.push(e).drop_last() =~= ps);
}

/// A node whose parent is the one it had in `s0`.
pub open spec fn unmoved(s0: Seq<NodeView>, n: NodeView) -> bool {
    n.parent == parent_of(s0, n.key)
}

/// A request that cannot be carried out yet: the requested parent lies inside
/// the node's own subtree.
pub open spec fn blocked(s: Seq<NodeView>, k: u64, p: Option<u64>) -> bool {
    &&& has_key(s, k)
    &&& p matches Some(pk) && has_key(s, pk) && pk != k && is_anc(s, k, pk)
}

/// A request that names a mirrored node and a mirrored parent other than
/// itself.
pub open spec fn feasible(s: Seq<NodeView>, k: u64, p: Option<u64>) -> bool {
    &&& has_key(s, k)
    &&& p matches Some(pk) ==> has_key(s, pk) && pk != k
}

/// The same nodes as `s0`, each with possibly another parent.
pub open spec fn same_but_parents(s0: Seq<NodeView>, s1: Seq<NodeView>) -> bool {
    &&& s1.len() == s0.len()
    &&& forall|k: u64| #[trigger] has_key(s1, k) == has_key(s0, k)
    &&& forall|k: u64|
        has_key(s0, k) ==> #[trigger] node_of(s1, k) == with_parent(node_of(s0, k), node_of(s1, k).parent)
}

/// Nodes that kept their parent stay in their order, ahead of every moved one.
pub open spec fn order_kept(s0: Seq<NodeView>, s1: Seq<NodeView>) -> bool {
    forall|i: int, j: int|
        0 <= i < j < s1.len() && unmoved(s0, #[trigger] s1[j]) ==> unmoved(s0, #[trigger] s1[i])
            && key_pos(s0, s1[i].key)->0 < key_pos(s0, s1[j].key)->0
}

/// What settling the reparent requests `p0` over nodes `s0` leaves: nodes
/// `s1` and requests `p1`. Every request still waiting is blocked; a node moved
/// only to the parent its request named; every feasible request that was
/// taken off the list was carried out.
pub open spec fn settles(
    s0: Seq<NodeView>,
    p0: Map<u64, Option<u64>>,
    s1: Seq<NodeView>,
    p1: Map<u64, Option<u64>>,
) -> bool {
    &&& same_but_parents(s0, s1)
    &&& forall|k: u64|
        #[trigger] p1.contains_key(k) ==> p0.contains_key(k) && p1[k] == p0[k] && blocked(s1, k, p1[k])
    &&& forall|k: u64|
        has_key(s0, k) && #[trigger] parent_of(s1, k) != parent_of(s0, k) ==> p0.contains_key(k) && p0[k]
            == parent_of(s1, k) && !p1.contains_key(k)
    &&& forall|k: u64|
        #[trigger] p0.contains_key(k) && !p1.contains_key(k) && feasible(s0, k, p0[k]) ==> parent_of(s1, k)
            == p0[k]
    &&& order_kept(s0, s1)
}

/// Requests `w` are among `p0`, with the same parents.
pub open spec fn sub_requests(w: Map<u64, Option<u64>>, p0: Map<u64, Option<u64>>) -> bool {
    forall|k: u64| #[trigger] w.contains_key(k) ==> p0.contains_key(k) && w[k] == p0[k]
}

/// Every node whose parent differs from `s0` was moved by its request in
/// `p0`, no longer waiting in `w`; every feasible request of `p0` no longer
/// waiting has been carried out.
pub open spec fn moves_tracked(
    s0: Seq<NodeView>,
    p0: Map<u64, Option<u64>>,
    s: Seq<NodeView>,
    w: Map<u64, Option<u64>>,
) -> bool {
    &&& forall|k: u64|
        has_key(s0, k) && #[trigger] parent_of(s, k) != parent_of(s0, k) ==> p0.contains_key(k) && p0[k]
            == parent_of(s, k) && !w.contains_key(k)
    &&& forall|k: u64|
        #[trigger] p0.contains_key(k) && !w.contains_key(k) && feasible(s0, k, p0[k]) ==> parent_of(s, k)
            == p0[k]
}

/// Taking a request off the waiting list once it needs nothing more.
proof fn lemma_moves_drop(
    s0: Seq<NodeView>,
    p0: Map<u64, Option<u64>>,
    s: Seq<NodeView>,
    w: Map<u64, Option<u64>>,
    k: u64,
)
    requires
        moves_tracked(s0, p0, s, w),
        w.contains_key(k),
        p0.contains_key(k),
        feasible(s0, k, p0[k]) ==> parent_of(s, k) == p0[k],
    ensures
        moves_tracked(s0, p0, s, w.remove(k)),
{
    assert forall|y: u64|
        #[trigger] p0.contains_key(y) && !w.remove(k).contains_key(y) && feasible(s0, y, p0[y]) implies parent_of(
        s,
        y,
    ) == p0[y] by {
        if y != k {
            assert(!w.contains_key(y));
        }
    }
}

/// Carrying out the request of `k`, which moves `k` under its parent.
proof fn lemma_moves_transfer(
    s0: Seq<NodeView>,
    p0: Map<u64, Option<u64>>,
    s: Seq<NodeView>,
    t: Seq<NodeView>,
    w: Map<u64, Option<u64>>,
    k: u64,
)
    requires
        moves_tracked(s0, p0, s, w),
        w.contains_key(k),
        p0.contains_key(k),
        parent_of(t, k) == p0[k],
        forall|y: u64| y != k ==> #[trigger] parent_of(t, y) == parent_of(s, y),
    ensures
        moves_tracked(s0, p0, t, w.remove(k)),
{
    assert forall|y: u64|
        has_key(s0, y) && #[trigger] parent_of(t, y) != parent_of(s0, y) implies p0.contains_key(y) && p0[y]
        == parent_of(t, y) && !w.remove(k).contains_key(y) by {
        if y != k {
            assert(parent_of(t, y) == parent_of(s, y));
        }
    }
    assert forall|y: u64|
        #[trigger] p0.contains_key(y) && !w.remove(k).contains_key(y) && feasible(s0, y, p0[y]) implies parent_of(
        t,
        y,
    ) == p0[y] by {
        if y != k {
            assert(!w.contains_key(y));
            assert(parent_of(t, y) == parent_of(s, y));
        }
    }
}

/// Moving the unmoved node at `idx` under `p` keeps the node set, every other
/// parent, and the order of nodes that kept their parent.
proof fn lemma_transfer_shape(s0: Seq<NodeView>, s: Seq<NodeView>, idx: int, p: Option<u64>)
    requires
        keys_unique(s),
        ids_unique(s),
        0 <= idx < s.len(),
        same_but_parents(s0, s),
        order_kept(s0, s),
        unmoved(s0, s[idx]),
        p != parent_of(s0, s[idx].key),
    ensures
        ({
            let t = s.remove(idx).push(with_parent(s[idx], p));
            &&& same_but_parents(s0, t)
            &&& order_kept(s0, t)
            &&& parent_of(t, s[idx].key) == p
            &&& forall|y: u64| y != s[idx].key ==> #[trigger] parent_of(t, y) == parent_of(s, y)
        }),
{
    let k = s[idx].key;
    let n2 = with_parent(s[idx], p);
    let t = s.remove(idx).push(n2);
    let last = s.len() - 1;
    lemma_moved_key(s, idx, n2, k);
    lemma_key_at(s, idx);
    assert forall|y: u64| #[trigger] has_key(t, y) == has_key(s0, y) by {
        lemma_moved_key(s, idx, n2, y);
        assert(has_key(s, y) == has_key(s0, y));
    }
    assert forall|y: u64| has_key(s0, y) implies #[trigger] node_of(t, y) == with_parent(
        node_of(s0, y),
        node_of(t, y).parent,
    ) by {
        lemma_moved_key(s, idx, n2, y);
        assert(node_of(s, y) == with_parent(node_of(s0, y), node_of(s, y).parent));
    }
    assert forall|y: u64| y != k implies #[trigger] parent_of(t, y) == parent_of(s, y) by {
        lemma_moved_key(s, idx, n2, y);
    }
    assert(t[last] == n2);
    assert forall|i: int, j: int|
        0 <= i < j < t.len() && unmoved(s0, #[trigger] t[j]) implies unmoved(s0, #[trigger] t[i]) && key_pos(
        s0,
        t[i].key,
    )->0 < key_pos(s0, t[j].key)->0 by {
        let si = if i < idx {
            i
        } else {
            i + 1
        };
        let sj = if j < idx {
            j
        } else {
            j + 1
        };
        if j < last {
            assert(t[j] == s[sj]);
            assert(t[i] == s[si]);
            assert(unmoved(s0, s[sj]));
        }
    }
}

impl SessionDom {
    /// Carry out waiting reparent requests until a pass changes nothing.
    fn reparent(&mut self)
        requires
            old(self).wf(),
        ensures
            final(self).wf(),
            settles(old(self).nodes(), old(self).pending(), final(self).nodes(), final(self).pending()),
            final(self).next_key() == old(self).next_key(),
    {
        let ghost s0 = self.nodes();
        let ghost p0 = self.pending();
        let ghost nk = self.next_key;
        proof {
            assert forall|i: int, j: int|
                0 <= i < j < s0.len() && unmoved(s0, #[trigger] s0[j]) implies unmoved(s0, #[trigger] s0[i])
                && key_pos(s0, s0[i].key)->0 < key_pos(s0, s0[j].key)->0 by {
                lemma_key_at(s0, i);
                lemma_key_at(s0, j);
            }
        }
        loop
            invariant
                self.wf(),
                self.next_key == nk,
                nodes_wf(s0, nk),
                same_but_parents(s0, self.nodes()),
                order_kept(s0, self.nodes()),
                sub_requests(self.pending(), p0),
                moves_tracked(s0, p0, self.nodes(), self.pending()),
            ensures
                self.wf(),
                self.next_key == nk,
                settles(s0, p0, self.nodes(), self.pending()),
            decreases self.pending@.len(),
        {
            let ghost s_pass = self.nodes();
            let ghost w_pass = self.pending();
            let mut queue: Vec<(u64, Option<u64>)> = Vec::new();
            std::mem::swap(&mut queue, &mut self.pending);
            assert(pending_map(queue@) == w_pass);
            let ghost pass_len = queue@.len();
            let mut kept: Vec<(u64, Option<u64>)> = Vec::new();
            let mut progressed = false;
            assert(pending_map(queue@).union_prefer_right(pending_map(kept@)) =~= w_pass);
            while queue.len() > 0
                invariant
                    nodes_wf(self.nodes(), nk),
                    self.next_key == nk,
                    self.pending@ == Seq::<(u64, Option<u64>)>::empty(),
                    nodes_wf(s0, nk),
                    same_but_parents(s0, self.nodes()),
                    order_kept(s0, self.nodes()),
                    pending_unique(queue@),
                    pending_unique(kept@),
                    forall|k: u64|
                        #[trigger] pending_map(queue@).contains_key(k) ==> !pending_map(kept@).contains_key(k),
                    sub_requests(pending_map(queue@), p0),
                    sub_requests(pending_map(kept@), p0),
                    moves_tracked(s0, p0, self.nodes(), pending_map(queue@).union_prefer_right(pending_map(kept@))),
                    !progressed ==> self.nodes() == s_pass,
                    forall|k: u64|
                        #[trigger] pending_map(kept@).contains_key(k) && !progressed ==> blocked(
                            self.nodes(),
                            k,
                            pending_map(kept@)[k],
                        ),
                    kept@.len() + queue@.len() + (if progressed {
                        1int
                    } else {
                        0int
                    }) <= pass_len,
                decreases queue@.len(),
            {
                let ghost q = queue@;
                let ghost s = self.nodes();
                let ghost w = pending_map(q).union_prefer_right(pending_map(kept@));
                proof {
                    lemma_pending_pop(q);
                }
                let (k, p) = queue.pop().unwrap();
                assert(queue@ =~= q.drop_last());
                assert(p0.contains_key(k) && p0[k] == p);
                assert(!pending_map(kept@).contains_key(k));
                assert(w.contains_key(k));
                let ghost w_after = pending_map(queue@).union_prefer_right(pending_map(kept@));
                assert(w_after =~= w.remove(k));
                let parent_ok = match p {
                    None => true,
                    Some(pk) => self.position_of_key(pk).is_some(),
                };
                if parent_ok {
                    match self.position_of_key(k) {
                        None => {
                            proof {
                                lemma_moves_drop(s0, p0, s, w, k);
                            }
                        },
                        Some(idx) => {
                            proof {
                                lemma_key_pos(s, k);
                                assert(s[idx as int] == self.nodes@[idx as int]@);
                                assert(parent_of(s, k) == s[idx as int].parent);
                            }
                            if self.nodes[idx].parent == p {
                                progressed = true;
                                proof {
                                    lemma_moves_drop(s0, p0, s, w, k);
                                }
                            } else if p == Some(k) {
                                proof {
                                    lemma_moves_drop(s0, p0, s, w, k);
                                }
                            } else {
                                let stuck = match p {
                                    None => false,
                                    Some(pk) => self.is_ancestor(k, pk),
                                };
                                if stuck {
                                    let ghost kept_before = kept@;
                                    proof {
                                        lemma_pending_push(kept_before, (k, p));
                                    }
                                    kept.push((k, p));
                                    assert(pending_map(queue@).union_prefer_right(pending_map(kept@)) =~= w);
                                } else {
                                    proof {
                                        assert(parent_of(s, k) == parent_of(s0, k));
                                        assert(s[idx as int].key == k);
                                        lemma_transfer_shape(s0, s, idx as int, p);
                                    }
                                    self.transfer(idx, p);
                                    progressed = true;
                                    proof {
                                        lemma_moves_transfer(s0, p0, s, self.nodes(), w, k);
                                    }
                                }
                            }
                        },
                    }
                } else {
                    proof {
                        if let Some(pk) = p {
                            assert(!has_key(s, pk));
                            assert(has_key(s, pk) == has_key(s0, pk));
                        }
                        lemma_moves_drop(s0, p0, s, w, k);
                    }
                }
            }
            proof {
                assert(pending_map(queue@) =~= Map::<u64, Option<u64>>::empty());
                assert(pending_map(queue@).union_prefer_right(pending_map(kept@)) =~= pending_map(kept@));
            }
            self.pending = kept;
            if !progressed {
                break;
            }
        }
    }
}

/// The property changes an upsert carries: every listed value is stored.
pub open spec fn as_changes(values: Seq<(String, DomValue)>) -> Seq<(String, Option<DomValue>)> {
    values.map_values(|p: (String, DomValue)| (p.0, Some(p.1)))
}

/// The tag change an upsert carries: a list replaces the tags, none keeps them.
pub open spec fn tag_change_of(tags: Option<Vec<String>>) -> TagChange {
    match tags {
        Some(t) => TagChange::Replace(t),
        None => TagChange::Keep,
    }
}

/// Value changes waiting for a node, merged once every upsert is in.
pub struct ValueWork {
    pub key: u64,
    pub properties: Seq<(String, Option<DomValue>)>,
    pub attributes: Seq<(String, Option<DomValue>)>,
    pub tags: TagChange,
}

/// The mirror part-way through a patch's upserts: nodes, the next key, the
/// value changes still to merge, and the parent moves still to queue (node key
/// and the client id of the requested parent).
pub struct Staged {
    pub nodes: Seq<NodeView>,
    pub next_key: u64,
    pub work: Seq<ValueWork>,
    pub moves: Seq<(u64, Option<Seq<char>>)>,
}

/// The node an upsert creates.
pub open spec fn fresh_node(inst: DomInstance, key: u64, parent: Option<u64>) -> NodeView {
    NodeView {
        key,
        id: inst.id@,
        parent,
        class: inst.class@,
        name: inst.name@,
        has_children: inst.has_children,
        values: Map::empty(),
    }
}

/// A mirrored node refreshed by an upsert: its names and child flag change.
pub open spec fn refreshed(n: NodeView, inst: DomInstance) -> NodeView {
    NodeView { class: inst.class@, name: inst.name@, has_children: inst.has_children, ..n }
}

/// The client id of an upsert's parent.
pub open spec fn parent_id(inst: DomInstance) -> Option<Seq<char>> {
    match inst.parent {
        Some(p) => Some(p@),
        None => None,
    }
}

/// One upsert: an already mirrored id is refreshed in place and asked to move
/// under its parent; a new id gets the next key, hangs under its parent if
/// that is mirrored (else under the root, asking to move once the parent may
/// have arrived). Either way its values wait to be merged.
pub open spec fn upsert_one(st: Staged, inst: DomInstance) -> Staged {
    let work = ValueWork {
        key: match id_pos(st.nodes, inst.id@) {
            Some(i) => st.nodes[i].key,
            None => st.next_key,
        },
        properties: as_changes(inst.properties@),
        attributes: as_changes(inst.attributes@),
        tags: tag_change_of(inst.tags),
    };
    match id_pos(st.nodes, inst.id@) {
        Some(i) => Staged {
            nodes: st.nodes.update(i, refreshed(st.nodes[i], inst)),
            next_key: st.next_key,
            work: st.work.push(work),
            moves: st.moves.push((st.nodes[i].key, parent_id(inst))),
        },
        None => {
            let pk = match parent_id(inst) {
                Some(p) => key_of(st.nodes, p),
                None => None,
            };
            Staged {
                nodes: st.nodes.push(fresh_node(inst, st.next_key, pk)),
                next_key: (st.next_key + 1) as u64,
                work: st.work.push(work),
                moves: if pk is None && inst.parent is Some {
                    st.moves.push((st.next_key, parent_id(inst)))
                } else {
                    st.moves
                },
            }
        },
    }
}

/// The upserts applied in order.
pub open spec fn upsert_all(st: Staged, insts: Seq<DomInstance>) -> Staged
    decreases insts.len(),
{
    if insts.len() == 0 {
        st
    } else {
        upsert_one(upsert_all(st, insts.drop_last()), insts.last())
    }
}

/// Value changes merged into the node with `key`, if it is mirrored.
pub open spec fn merge_node(
    s: Seq<NodeView>,
    key: u64,
    properties: Seq<(String, Option<DomValue>)>,
    attributes: Seq<(String, Option<DomValue>)>,
    tags: TagChange,
) -> Seq<NodeView> {
    if has_key(s, key) {
        let i = key_pos(s, key)->0;
        s.update(i, with_values(s[i], merged_values(s[i].values, s, properties, attributes, tags)))
    } else {
        s
    }
}

/// Waiting value changes merged in order.
pub open spec fn merge_work(s: Seq<NodeView>, work: Seq<ValueWork>) -> Seq<NodeView>
    decreases work.len(),
{
    if work.len() == 0 {
        s
    } else {
        let before = merge_work(s, work.drop_last());
        let w = work.last();
        merge_node(before, w.key, w.properties, w.attributes, w.tags)
    }
}

/// Updates applied in order; one aimed at an unmirrored id is dropped.
pub open spec fn apply_updates(s: Seq<NodeView>, updates: Seq<DomUpdate>) -> Seq<NodeView>
    decreases updates.len(),
{
    if updates.len() == 0 {
        s
    } else {
        let before = apply_updates(s, updates.drop_last());
        let d = updates.last();
        match key_of(before, d.id@) {
            Some(k) => merge_node(before, k, d.properties@, d.attributes@, d.tags),
            None => before,
        }
    }
}

/// Parent moves queued in order: each replaces any waiting request of its
/// node; a parent that is not mirrored stands for the root.
pub open spec fn queue_moves(
    p: Map<u64, Option<u64>>,
    s: Seq<NodeView>,
    moves: Seq<(u64, Option<Seq<char>>)>,
) -> Map<u64, Option<u64>>
    decreases moves.len(),
{
    if moves.len() == 0 {
        p
    } else {
        let before = queue_moves(p, s, moves.drop_last());
        let (k, parent) = moves.last();
        before.insert(
            k,
            match parent {
                Some(id) => key_of(s, id),
                None => None,
            },
        )
    }
}

/// The mirror's value changes as the merge sees them.
pub open spec fn work_view(work: Seq<(u64, Vec<(String, Option<DomValue>)>, Vec<(String, Option<DomValue>)>, TagChange)>) -> Seq<ValueWork> {
    work.map_values(
        |w: (u64, Vec<(String, Option<DomValue>)>, Vec<(String, Option<DomValue>)>, TagChange)|
            ValueWork { key: w.0, properties: w.1@, attributes: w.2@, tags: w.3 },
    )
}

/// Parent moves as the queue sees them.
pub open spec fn moves_view(moves: Seq<(u64, Option<String>)>) -> Seq<(u64, Option<Seq<char>>)> {
    moves.map_values(
        |m: (u64, Option<String>)|
            (
                m.0,
                match m.1 {
                    Some(id) => Some(id@),
                    None => None,
                },
            ),
    )
}

/// Chains from a mirrored node, or from the root, stay among mirrored nodes.
proof fn lemma_up_mirrored(s: Seq<NodeView>, nk: u64, start: Option<u64>, m: nat)
    requires
        nodes_wf(s, nk),
        start matches Some(x) ==> has_key(s, x),
    ensures
        up(s, start, m) matches Some(y) ==> has_key(s, y),
    decreases m,
{
    if m > 0 {
        if let Some(x) = start {
            lemma_key_pos(s, x);
            let i = key_pos(s, x)->0;
            assert(s[i].parent matches Some(p) ==> has_key(s, p));
            lemma_up_mirrored(s, nk, parent_of(s, x), (m - 1) as nat);
        }
    }
}

/// Appending a node with a fresh key and id under a mirrored parent keeps the
/// invariant.
proof fn lemma_push_fresh(s: Seq<NodeView>, nk: u64, n: NodeView)
    requires
        nodes_wf(s, nk),
        n.key == nk,
        nk < u64::MAX,
        id_pos(s, n.id) is None,
        n.parent matches Some(p) ==> has_key(s, p),
    ensures
        nodes_wf(s.push(n), (nk + 1) as u64),
        forall|y: u64| #[trigger] has_key(s, y) ==> has_key(s.push(n), y) && node_of(s.push(n), y) == node_of(s, y),
        forall|id: Seq<char>| id != n.id ==> #[trigger] key_of(s.push(n), id) == key_of(s, id),
        key_of(s.push(n), n.id) == Some(nk),
{
    let t = s.push(n);
    let last = s.len() as int;
    assert(t.drop_last() =~= s);
    lemma_id_pos(s, n.id);
    assert(keys_unique(t));
    assert(ids_unique(t));
    assert forall|y: u64| #[trigger] has_key(s, y) implies has_key(t, y) && node_of(t, y) == node_of(s, y) by {
        lemma_key_pos(s, y);
        lemma_key_at(t, key_pos(s, y)->0);
    }
    assert forall|id: Seq<char>| id != n.id implies #[trigger] key_of(t, id) == key_of(s, id) by {
        lemma_id_pos(s, id);
        if let Some(j) = id_pos(s, id) {
            lemma_id_at(t, j);
        } else {
            lemma_id_absent(t, id);
        }
    }
    lemma_id_at(t, last);
    lemma_key_at(t, last);
    assert forall|y: u64| y != nk implies #[trigger] parent_of(t, y) == parent_of(s, y) by {
        if has_key(s, y) {
        } else {
            lemma_key_pos(s, y);
            assert forall|j: int| 0 <= j < t.len() implies t[j].key != y by {}
            lemma_key_absent(t, y);
        }
    }
    assert(parent_of(t, nk) == n.parent);
    assert forall|i: int| 0 <= i < t.len() implies (#[trigger] t[i].parent matches Some(p) ==> has_key(t, p)) by {
        if i < last {
            assert(t[i] == s[i]);
        }
    }
    assert forall|i: int| 0 <= i < t.len() implies rooted(t, #[trigger] t[i].key) by {
        if i < last {
            assert(t[i] == s[i]);
            assert(rooted(s, s[i].key));
            let m = choose|m: nat| #[trigger] up(s, Some(s[i].key), m) is None;
            lemma_key_at(s, i);
            assert forall|j: nat| j < m implies #[trigger] up(s, Some(s[i].key), j) != Some(nk) by {
                lemma_up_mirrored(s, nk, Some(s[i].key), j);
                if let Some(y) = up(s, Some(s[i].key), j) {
                    lemma_key_pos(s, y);
                }
            }
            lemma_path_avoiding(s, t, nk, Some(s[i].key), m);
        } else {
            match n.parent {
                None => {
                    assert(up(t, Some(nk), 1) == up(t, None, 0));
                },
                Some(p) => {
                    lemma_key_pos(s, p);
                    let j = key_pos(s, p)->0;
                    assert(rooted(s, s[j].key));
                    let m = choose|m: nat| #[trigger] up(s, Some(p), m) is None;
                    assert forall|q: nat| q < m implies #[trigger] up(s, Some(p), q) != Some(nk) by {
                        lemma_up_mirrored(s, nk, Some(p), q);
                        if let Some(y) = up(s, Some(p), q) {
                            lemma_key_pos(s, y);
                        }
                    }
                    lemma_path_avoiding(s, t, nk, Some(p), m);
                    assert(up(t, Some(nk), m + 1) == up(t, Some(p), m));
                },
            }
        }
    }
}

/// Replacing the request at `i` by one for the same node.
proof fn lemma_pending_update(ps: Seq<(u64, Option<u64>)>, i: int, p: Option<u64>)
    requires
        pending_unique(ps),
        0 <= i < ps.len(),
    ensures
        pending_unique(ps.update(i, (ps[i].0, p))),
        pending_map(ps.update(i, (ps[i].0, p))) == pending_map(ps).insert(ps[i].0, p),
    decreases ps.len(),
{
    let t = ps.update(i, (ps[i].0, p));
    if i == ps.len() - 1 {
        assert(t.drop_last() =~= ps.drop_last());
        assert(pending_map(t) =~= pending_map(ps).insert(ps[i].0, p));
    } else {
        lemma_pending_update(ps.drop_last(), i, p);
        assert(t.drop_last() =~= ps.drop_last().update(i, (ps[i].0, p)));
        assert(pending_map(t) =~= pending_map(ps).insert(ps[i].0, p));
    }
}

impl SessionDom {
    /// Queue a request to move node `k` under `p`, replacing any waiting one.
    fn request_move(&mut self, k: u64, p: Option<u64>)
        requires
            old(self).wf(),
        ensures
            final(self).wf(),
            final(self).nodes() == old(self).nodes(),
            final(self).next_key() == old(self).next_key(),
            final(self).pending() == old(self).pending().insert(k, p),
    {
        let ghost ps = self.pending@;
        let mut i: usize = 0;
        while i < self.pending.len()
            invariant
                self.wf(),
                self.nodes() == old(self).nodes(),
                self.next_key == old(self).next_key,
                pending_unique(ps),
                self.pending@ == ps,
                ps == old(self).pending@,
                i <= ps.len(),
                forall|j: int| 0 <= j < i ==> ps[j].0 != k,
            decreases ps.len() - i,
        {
            if self.pending[i].0 == k {
                proof {
                    lemma_pending_update(ps, i as int, p);
                }
                self.pending.set(i, (k, p));
                return;
            }
            i = i + 1;
        }
        proof {
            lemma_pending_absent(ps, k);
            lemma_pending_push(ps, (k, p));
        }
        self.pending.push((k, p));
    }

    /// Queue every parent move, resolving parent ids against the mirror.
    fn queue_all(&mut self, moves: Vec<(u64, Option<String>)>)
        requires
            old(self).wf(),
        ensures
            final(self).wf(),
            final(self).nodes() == old(self).nodes(),
            final(self).next_key() == old(self).next_key(),
            final(self).pending() == queue_moves(old(self).pending(), old(self).nodes(), moves_view(moves@)),
    {
        let ghost p0 = self.pending();
        let ghost s = self.nodes();
        let mut all = moves;
        let ghost source = all@;
        assert(moves_view(source.take(0)) =~= Seq::<(u64, Option<Seq<char>>)>::empty());
        while all.len() > 0
            invariant
                self.wf(),
                self.nodes() == s,
                self.next_key() == old(self).next_key(),
                all@.len() <= source.len(),
                all@ == source.skip(source.len() - all@.len()),
                self.pending() == queue_moves(p0, s, moves_view(source.take(source.len() - all@.len()))),
            decreases all@.len(),
        {
            let ghost done = source.len() - all@.len();
            let (k, parent) = all.remove(0);
            proof {
                assert(moves_view(source.take(done + 1)).drop_last() =~= moves_view(source.take(done)));
                assert(source[done] == (k, parent));
                assert(all@ =~= source.skip(done + 1));
            }
            let target = match &parent {
                Some(id) => self.key_for(id),
                None => None,
            };
            self.request_move(k, target);
        }
        assert(source.take(source.len() as int) =~= source);
    }

    /// Merge every waiting value change, in order.
    fn merge_all(
        &mut self,
        work: Vec<(u64, Vec<(String, Option<DomValue>)>, Vec<(String, Option<DomValue>)>, TagChange)>,
    )
        requires
            old(self).wf(),
        ensures
            final(self).wf(),
            final(self).nodes() == merge_work(old(self).nodes(), work_view(work@)),
            final(self).next_key() == old(self).next_key(),
            final(self).pending() == old(self).pending(),
    {
        let ghost s0 = self.nodes();
        let mut all = work;
        let ghost source = all@;
        assert(work_view(source.take(0)) =~= Seq::<ValueWork>::empty());
        while all.len() > 0
            invariant
                self.wf(),
                self.next_key() == old(self).next_key(),
                self.pending() == old(self).pending(),
                all@.len() <= source.len(),
                all@ == source.skip(source.len() - all@.len()),
                self.nodes() == merge_work(s0, work_view(source.take(source.len() - all@.len()))),
            decreases all@.len(),
        {
            let ghost done = source.len() - all@.len();
            let (key, properties, attributes, tags) = all.remove(0);
            proof {
                assert(work_view(source.take(done + 1)).drop_last() =~= work_view(source.take(done)));
                assert(source[done] == (key, properties, attributes, tags));
                assert(all@ =~= source.skip(done + 1));
            }
            if let Some(idx) = self.position_of_key(key) {
                proof {
                    lemma_key_pos(self.nodes(), key);
                }
                self.merge_at(idx, properties, attributes, tags);
            }
        }
        assert(source.take(source.len() as int) =~= source);
    }

    /// Apply every update, in order; those aimed at unmirrored ids are dropped.
    fn update_all(&mut self, updates: Vec<DomUpdate>)
        requires
            old(self).wf(),
        ensures
            final(self).wf(),
            final(self).nodes() == apply_updates(old(self).nodes(), updates@),
            final(self).next_key() == old(self).next_key(),
            final(self).pending() == old(self).pending(),
    {
        let ghost s0 = self.nodes();
        let mut all = updates;
        let ghost source = all@;
        assert(source.take(0) =~= Seq::<DomUpdate>::empty());
        while all.len() > 0
            invariant
                self.wf(),
                self.next_key() == old(self).next_key(),
                self.pending() == old(self).pending(),
                all@.len() <= source.len(),
                all@ == source.skip(source.len() - all@.len()),
                self.nodes() == apply_updates(s0, source.take(source.len() - all@.len())),
            decreases all@.len(),
        {
            let ghost done = source.len() - all@.len();
            let update = all.remove(0);
            proof {
                assert(source.take(done + 1).drop_last() =~= source.take(done));
                assert(source[done] == update);
                assert(all@ =~= source.skip(done + 1));
            }
            let DomUpdate { id, properties, attributes, tags } = update;
            if let Some(idx) = self.position_of(&id) {
                proof {
                    let s = self.nodes();
                    lemma_id_pos(s, id@);
                    lemma_key_at(s, idx as int);
                }
                self.merge_at(idx, properties, attributes, tags);
            }
        }
        assert(source.take(source.len() as int) =~= source);
    }
}

/// Lookups in a list with one more node at the end.
proof fn lemma_push_lookup(t: Seq<NodeView>, x: NodeView, y: u64, id: Seq<char>)
    requires
        keys_unique(t.push(x)),
        ids_unique(t.push(x)),
    ensures
        has_key(t.push(x), y) == (has_key(t, y) || x.key == y),
        has_key(t.push(x), y) ==> node_of(t.push(x), y) == if x.key == y {
            x
        } else {
            node_of(t, y)
        },
        key_of(t.push(x), id) == if x.id == id {
            Some(x.key)
        } else {
            key_of(t, id)
        },
{
    let u = t.push(x);
    let last = t.len() as int;
    assert(u.drop_last() =~= t);
    assert(keys_unique(t));
    assert(ids_unique(t));
    lemma_key_at(u, last);
    lemma_id_at(u, last);
    lemma_key_pos(t, y);
    if let Some(j) = key_pos(t, y) {
        lemma_key_at(u, j);
    } else if x.key != y {
        lemma_key_absent(u, y);
    }
    lemma_id_pos(t, id);
    if let Some(j) = id_pos(t, id) {
        lemma_id_at(u, j);
    } else if x.id != id {
        lemma_id_absent(u, id);
    }
}

/// The nodes of `t` outside the subtree of `r` (taken in `s`), in order.
pub open spec fn keep_outside(s: Seq<NodeView>, t: Seq<NodeView>, r: u64) -> Seq<NodeView>
    decreases t.len(),
{
    if t.len() == 0 {
        t
    } else {
        let before = keep_outside(s, t.drop_last(), r);
        if in_subtree(s, r, t.last().key) {
            before
        } else {
            before.push(t.last())
        }
    }
}

/// The mirror without the subtree rooted at `r`.
pub open spec fn prune(s: Seq<NodeView>, r: u64) -> Seq<NodeView> {
    keep_outside(s, s, r)
}

/// What keeping the nodes outside a subtree leaves: exactly those nodes, with
/// unique keys and ids, found by the same lookups.
proof fn lemma_keep_outside(s: Seq<NodeView>, t: Seq<NodeView>, r: u64)
    requires
        keys_unique(t),
        ids_unique(t),
    ensures
        keys_unique(keep_outside(s, t, r)),
        ids_unique(keep_outside(s, t, r)),
        forall|y: u64|
            #[trigger] has_key(keep_outside(s, t, r), y) == (has_key(t, y) && !in_subtree(s, r, y)),
        forall|y: u64|
            #[trigger] has_key(keep_outside(s, t, r), y) ==> node_of(keep_outside(s, t, r), y) == node_of(t, y),
        forall|id: Seq<char>|
            #[trigger] key_of(keep_outside(s, t, r), id) == match key_of(t, id) {
                Some(k) => if in_subtree(s, r, k) {
                    None
                } else {
                    Some(k)
                },
                None => None,
            },
    decreases t.len(),
{
    let u = keep_outside(s, t, r);
    if t.len() == 0 {
        assert forall|y: u64| #[trigger] has_key(u, y) == (has_key(t, y) && !in_subtree(s, r, y)) by {}
        assert forall|id: Seq<char>| #[trigger] key_of(u, id) == match key_of(t, id) {
            Some(k) => if in_subtree(s, r, k) {
                None
            } else {
                Some(k)
            },
            None => None,
        } by {}
    } else {
        let init = t.drop_last();
        let x = t.last();
        assert(init.push(x) =~= t);
        assert(keys_unique(init));
        assert(ids_unique(init));
        lemma_keep_outside(s, init, r);
        let before = keep_outside(s, init, r);
        lemma_key_pos(init, x.key);
        lemma_id_pos(init, x.id);
        if !in_subtree(s, r, x.key) {
            assert(u == before.push(x));
            assert(!has_key(before, x.key));
            assert forall|i: int| 0 <= i < before.len() implies before[i].key != x.key && before[i].id != x.id by {
                lemma_key_at(before, i);
                lemma_id_at(before, i);
                assert(has_key(init, before[i].key));
                lemma_key_pos(init, before[i].key);
                if before[i].id == x.id {
                    assert(key_of(before, x.id) is Some);
                }
            }
            assert(keys_unique(u));
            assert(ids_unique(u));
            assert forall|y: u64| #[trigger] has_key(u, y) == (has_key(t, y) && !in_subtree(s, r, y)) by {
                lemma_push_lookup(before, x, y, x.id);
                lemma_push_lookup(init, x, y, x.id);
            }
            assert forall|y: u64| #[trigger] has_key(u, y) implies node_of(u, y) == node_of(t, y) by {
                lemma_push_lookup(before, x, y, x.id);
                lemma_push_lookup(init, x, y, x.id);
            }
            assert forall|id: Seq<char>| #[trigger] key_of(u, id) == match key_of(t, id) {
                Some(k) => if in_subtree(s, r, k) {
                    None
                } else {
                    Some(k)
                },
                None => None,
            } by {
                lemma_push_lookup(before, x, 0, id);
                lemma_push_lookup(init, x, 0, id);
            }
        } else {
            assert(u == before);
            assert forall|y: u64| #[trigger] has_key(u, y) == (has_key(t, y) && !in_subtree(s, r, y)) by {
                lemma_push_lookup(init, x, y, x.id);
            }
            assert forall|y: u64| #[trigger] has_key(u, y) implies node_of(u, y) == node_of(t, y) by {
                lemma_push_lookup(init, x, y, x.id);
            }
            assert forall|id: Seq<char>| #[trigger] key_of(u, id) == match key_of(t, id) {
                Some(k) => if in_subtree(s, r, k) {
                    None
                } else {
                    Some(k)
                },
                None => None,
            } by {
                lemma_push_lookup(init, x, 0, id);
            }
        }
    }
}

/// A node whose parent lies in the subtree of `r` lies in it too.
proof fn lemma_subtree_parent(s: Seq<NodeView>, r: u64, y: u64, p: u64)
    requires
        parent_of(s, y) == Some(p),
        in_subtree(s, r, p),
    ensures
        in_subtree(s, r, y),
{
    assert(up(s, Some(y), 1) == up(s, Some(p), 0));
    if p != r {
        let n = choose|n: nat| n >= 1 && #[trigger] up(s, Some(p), n) == Some(r);
        assert(up(s, Some(y), n + 1) == up(s, Some(p), n));
    }
}

/// From a node outside the subtree, chains in the pruned mirror are the
/// chains of the whole mirror.
proof fn lemma_up_pruned(s: Seq<NodeView>, nk: u64, r: u64, start: Option<u64>, n: nat)
    requires
        nodes_wf(s, nk),
        start matches Some(y) ==> has_key(prune(s, r), y),
    ensures
        up(prune(s, r), start, n) == up(s, start, n),
    decreases n,
{
    let u = prune(s, r);
    lemma_keep_outside(s, s, r);
    if n > 0 {
        if let Some(y) = start {
            assert(parent_of(u, y) == parent_of(s, y));
            if let Some(p) = parent_of(s, y) {
                lemma_key_pos(s, y);
                let i = key_pos(s, y)->0;
                assert(s[i].parent matches Some(q) ==> has_key(s, q));
                if in_subtree(s, r, p) {
                    lemma_subtree_parent(s, r, y, p);
                }
            }
            lemma_up_pruned(s, nk, r, parent_of(s, y), (n - 1) as nat);
        }
    }
}

/// Pruning a subtree keeps the invariant.
proof fn lemma_prune_wf(s: Seq<NodeView>, nk: u64, r: u64)
    requires
        nodes_wf(s, nk),
    ensures
        nodes_wf(prune(s, r), nk),
{
    let u = prune(s, r);
    lemma_keep_outside(s, s, r);
    assert(keys_unique(u));
    assert(ids_unique(u));
    assert forall|i: int| 0 <= i < u.len() implies u[i].key < nk by {
        lemma_key_at(u, i);
        lemma_key_pos(s, u[i].key);
    }
    assert forall|i: int| 0 <= i < u.len() implies (#[trigger] u[i].parent matches Some(p) ==> has_key(u, p)) by {
        lemma_key_at(u, i);
        let y = u[i].key;
        lemma_key_pos(s, y);
        let j = key_pos(s, y)->0;
        assert(u[i] == s[j]);
        assert(s[j].parent matches Some(q) ==> has_key(s, q));
        if let Some(p) = u[i].parent {
            if in_subtree(s, r, p) {
                lemma_subtree_parent(s, r, y, p);
            }
        }
    }
    assert forall|i: int| 0 <= i < u.len() implies rooted(u, #[trigger] u[i].key) by {
        lemma_key_at(u, i);
        let y = u[i].key;
        lemma_key_pos(s, y);
        let j = key_pos(s, y)->0;
        assert(rooted(s, s[j].key));
        let n = choose|n: nat| #[trigger] up(s, Some(y), n) is None;
        lemma_up_pruned(s, nk, r, Some(y), n);
    }
}

/// Removals applied in order: each mirrored id takes its subtree with it; ids
/// that are not mirrored (any longer) are skipped.
pub open spec fn remove_all(s: Seq<NodeView>, removals: Seq<String>) -> Seq<NodeView>
    decreases removals.len(),
{
    if removals.len() == 0 {
        s
    } else {
        let before = remove_all(s, removals.drop_last());
        match key_of(before, removals.last()@) {
            Some(r) => prune(before, r),
            None => before,
        }
    }
}

/// An upsert's values as changes that store each of them.
fn changes_of(values: Vec<(String, DomValue)>) -> (r: Vec<(String, Option<DomValue>)>)
    ensures
        r@ == as_changes(values@),
{
    let mut all = values;
    let ghost source = all@;
    let mut out: Vec<(String, Option<DomValue>)> = Vec::new();
    while all.len() > 0
        invariant
            all@.len() <= source.len(),
            all@ == source.skip(source.len() - all@.len()),
            out@ == as_changes(source.take(source.len() - all@.len())),
        decreases all@.len(),
    {
        let ghost done = source.len() - all@.len();
        let (key, value) = all.remove(0);
        proof {
            assert(source[done] == (key, value));
            assert(all@ =~= source.skip(done + 1));
        }
        out.push((key, Some(value)));
        assert(out@ =~= as_changes(source.take(done + 1)));
    }
    assert(source.take(source.len() as int) =~= source);
    out
}

impl SessionDom {
    /// One upsert of a patch: refresh or create the node, and record its value
    /// changes and parent move.
    fn upsert(
        &mut self,
        inst: DomInstance,
        work: &mut Vec<(u64, Vec<(String, Option<DomValue>)>, Vec<(String, Option<DomValue>)>, TagChange)>,
        moves: &mut Vec<(u64, Option<String>)>,
    )
        requires
            old(self).wf(),
            old(self).next_key() < u64::MAX,
        ensures
            final(self).wf(),
            final(self).pending() == old(self).pending(),
            upsert_one(
                Staged {
                    nodes: old(self).nodes(),
                    next_key: old(self).next_key(),
                    work: work_view(old(work)@),
                    moves: moves_view(old(moves)@),
                },
                inst,
            ) == (Staged {
                nodes: final(self).nodes(),
                next_key: final(self).next_key(),
                work: work_view(final(work)@),
                moves: moves_view(final(moves)@),
            }),
    {
        let ghost g = inst;
        let ghost s = self.nodes();
        let ghost w0 = work@;
        let ghost m0 = moves@;
        let DomInstance { id, parent, class, name, has_children, properties, attributes, tags } = inst;
        let props = changes_of(properties);
        let attrs = changes_of(attributes);
        let tag_change = match tags {
            Some(t) => TagChange::Replace(t),
            None => TagChange::Keep,
        };
        assert(tag_change == tag_change_of(g.tags));
        match self.position_of(&id) {
            Some(i) => {
                proof {
                    lemma_id_pos(s, id@);
                }
                let k = self.nodes[i].key;
                assert(s[i as int].key == k);
                {
                    let node = &mut self.nodes[i];
                    node.class = class;
                    node.name = name;
                    node.has_children = has_children;
                }
                assert(self.nodes() =~= s.update(i as int, refreshed(s[i as int], g)));
                proof {
                    lemma_same_tree_wf(s, self.nodes(), self.next_key);
                }
                work.push((k, props, attrs, tag_change));
                moves.push((k, parent));
                assert(work_view(work@) =~= work_view(w0).push(
                    ValueWork {
                        key: k,
                        properties: as_changes(g.properties@),
                        attributes: as_changes(g.attributes@),
                        tags: tag_change_of(g.tags),
                    },
                ));
                assert(moves_view(moves@) =~= moves_view(m0).push((k, parent_id(g))));
            },
            None => {
                let pk = match &parent {
                    Some(pid) => self.key_for(pid),
                    None => None,
                };
                proof {
                    if let Some(pid) = g.parent {
                        if let Some(j) = id_pos(s, pid@) {
                            lemma_id_pos(s, pid@);
                            lemma_key_at(s, j);
                        }
                    }
                }
                let k = self.next_key;
                let orphan = pk.is_none() && parent.is_some();
                let node = MirrorNode { key: k, id, parent: pk, class, name, has_children, properties: Vec::new() };
                assert(node@ == fresh_node(g, k, pk)) by {
                    assert(values_of(node.properties@) =~= Map::<Seq<char>, StoredView>::empty());
                }
                proof {
                    lemma_push_fresh(s, k, node@);
                }
                self.nodes.push(node);
                self.next_key = k + 1;
                assert(self.nodes() =~= s.push(fresh_node(g, k, pk)));
                work.push((k, props, attrs, tag_change));
                assert(work_view(work@) =~= work_view(w0).push(
                    ValueWork {
                        key: k,
                        properties: as_changes(g.properties@),
                        attributes: as_changes(g.attributes@),
                        tags: tag_change_of(g.tags),
                    },
                ));
                if orphan {
                    moves.push((k, parent));
                    assert(moves_view(moves@) =~= moves_view(m0).push((k, parent_id(g))));
                }
            },
        }
    }

    /// Remove the node with key `r` and its whole subtree.
    fn remove_subtree(&mut self, r: u64)
        requires
            old(self).wf(),
        ensures
            final(self).wf(),
            final(self).nodes() == prune(old(self).nodes(), r),
            final(self).pending() == old(self).pending(),
            final(self).next_key() == old(self).next_key(),
    {
        let ghost s = self.nodes();
        let mut doomed: Vec<bool> = Vec::new();
        let mut i: usize = 0;
        while i < self.nodes.len()
            invariant
                self.wf(),
                self.nodes() == s,
                i <= s.len(),
                s.len() == self.nodes@.len(),
                doomed@.len() == i,
                forall|j: int| 0 <= j < i ==> doomed@[j] == in_subtree(s, r, s[j].key),
            decreases s.len() - i,
        {
            assert(s[i as int] == self.nodes@[i as int]@);
            let k = self.nodes[i].key;
            proof {
                lemma_key_at(s, i as int);
            }
            let gone = k == r || self.is_ancestor(r, k);
            doomed.push(gone);
            i = i + 1;
        }
        let mut all: Vec<MirrorNode> = Vec::new();
        std::mem::swap(&mut all, &mut self.nodes);
        let ghost source = all@;
        assert(source.map_values(|n: MirrorNode| n@) == s);
        let mut kept: Vec<MirrorNode> = Vec::new();
        let mut j: usize = 0;
        assert(s.take(0) =~= Seq::<NodeView>::empty());
        while j < doomed.len()
            invariant
                j <= source.len(),
                source.len() == s.len(),
                source.map_values(|n: MirrorNode| n@) == s,
                doomed@.len() == s.len(),
                forall|q: int| 0 <= q < s.len() ==> doomed@[q] == in_subtree(s, r, s[q].key),
                all@ == source.skip(j as int),
                all@.len() == source.len() - j,
                kept@.map_values(|n: MirrorNode| n@) == keep_outside(s, s.take(j as int), r),
            decreases source.len() - j,
        {
            let node = all.remove(0);
            proof {
                assert(node == source[j as int]);
                assert(s[j as int] == node@);
                assert(all@ =~= source.skip(j + 1));
                assert(s.take(j + 1).drop_last() =~= s.take(j as int));
                assert(s.take(j + 1).last() == node@);
            }
            let ghost before = kept@;
            if !doomed[j] {
                kept.push(node);
                assert(kept@.map_values(|n: MirrorNode| n@) =~= before.map_values(|n: MirrorNode| n@).push(
                    s[j as int],
                ));
            }
            j = j + 1;
        }
        assert(s.take(s.len() as int) =~= s);
        self.nodes = kept;
        proof {
            lemma_prune_wf(s, self.next_key, r);
        }
    }

    /// Apply every removal, in order.
    fn remove_all_ids(&mut self, removals: Vec<String>)
        requires
            old(self).wf(),
        ensures
            final(self).wf(),
            final(self).nodes() == remove_all(old(self).nodes(), removals@),
            final(self).pending() == old(self).pending(),
            final(self).next_key() == old(self).next_key(),
    {
        let ghost s0 = self.nodes();
        let mut all = removals;
        let ghost source = all@;
        assert(source.take(0) =~= Seq::<String>::empty());
        while all.len() > 0
            invariant
                self.wf(),
                self.next_key() == old(self).next_key(),
                self.pending() == old(self).pending(),
                all@.len() <= source.len(),
                all@ == source.skip(source.len() - all@.len()),
                self.nodes() == remove_all(s0, source.take(source.len() - all@.len())),
            decreases all@.len(),
        {
            let ghost done = source.len() - all@.len();
            let id = all.remove(0);
            proof {
                assert(source.take(done + 1).drop_last() =~= source.take(done));
                assert(source[done] == id);
                assert(all@ =~= source.skip(done + 1));
            }
            if let Some(r) = self.key_for(&id) {
                self.remove_subtree(r);
            }
        }
        assert(source.take(source.len() as int) =~= source);
    }
}

/// What merging `patch` into a mirror with nodes `s0`, waiting requests `p0`
/// and next key `nk0` leaves: the upserts staged, their values merged, the
/// updates applied, the parent moves queued and settled, and the removals
/// applied.
pub open spec fn patched(
    s0: Seq<NodeView>,
    p0: Map<u64, Option<u64>>,
    nk0: u64,
    patch: DomPatch,
    s: Seq<NodeView>,
    p: Map<u64, Option<u64>>,
    nk: u64,
) -> bool {
    let st = upsert_all(staging(s0, nk0), patch.upserts@);
    let s2 = apply_updates(merge_work(st.nodes, st.work), patch.updates@);
    let p2 = queue_moves(p0, s2, st.moves);
    &&& nk == st.next_key
    &&& exists|s3: Seq<NodeView>, p3: Map<u64, Option<u64>>|
        settles(s2, p2, s3, p3) && s == remove_all(s3, patch.removals@) && p == p3
}

/// The staging state a patch starts from.
pub open spec fn staging(nodes: Seq<NodeView>, next_key: u64) -> Staged {
    Staged { nodes, next_key, work: Seq::empty(), moves: Seq::empty() }
}

/// Whether some mirrored node hangs directly under `key`.
pub open spec fn has_child(s: Seq<NodeView>, key: u64) -> bool {
    exists|i: int| 0 <= i < s.len() && #[trigger] s[i].parent == Some(key)
}

/// The keys of the nodes directly under `parent` (`None`: the root), in order.
pub open spec fn children_of(s: Seq<NodeView>, parent: Option<u64>) -> Seq<u64>
    decreases s.len(),
{
    if s.len() == 0 {
        Seq::empty()
    } else {
        let before = children_of(s.drop_last(), parent);
        if s.last().parent == parent {
            before.push(s.last().key)
        } else {
            before
        }
    }
}

impl MirrorNode {
    /// The stored value of property `name`.
    pub fn value(&self, name: &str) -> (r: Option<&MirrorValue>)
        ensures
            match r {
                Some(v) => self@.values.contains_key(name@) && v@ == self@.values[name@],
                None => !self@.values.contains_key(name@),
            },
    {
        let key = name.to_owned();
        assoc_get(&self.properties, &key)
    }
}

impl SessionDom {
    /// Whether `n` more nodes can still get a key of their own.
    pub fn can_take(&self, n: usize) -> (r: bool)
        ensures
            r == (self.next_key() + n <= u64::MAX),
    {
        n as u64 <= u64::MAX - self.next_key
    }

    /// Merge a patch into the mirror: upserts first (so that references and
    /// parents within the patch resolve whatever their order), then the
    /// upserts' values, then the updates, then parent moves, settled as far as
    /// they can be, then removals with their subtrees.
    pub fn apply(&mut self, patch: DomPatch)
        requires
            old(self).wf(),
            old(self).next_key() + patch.upserts@.len() <= u64::MAX,
        ensures
            final(self).wf(),
            patched(
                old(self).nodes(),
                old(self).pending(),
                old(self).next_key(),
                patch,
                final(self).nodes(),
                final(self).pending(),
                final(self).next_key(),
            ),
    {
        let ghost st0 = staging(self.nodes(), self.next_key);
        let ghost p0 = self.pending();
        let DomPatch { upserts, removals, updates } = patch;
        let mut work: Vec<(u64, Vec<(String, Option<DomValue>)>, Vec<(String, Option<DomValue>)>, TagChange)> =
            Vec::new();
        let mut moves: Vec<(u64, Option<String>)> = Vec::new();
        let mut all = upserts;
        let ghost source = all@;
        assert(source.take(0) =~= Seq::<DomInstance>::empty());
        assert(work_view(work@) =~= Seq::<ValueWork>::empty());
        assert(moves_view(moves@) =~= Seq::<(u64, Option<Seq<char>>)>::empty());
        while all.len() > 0
            invariant
                self.wf(),
                self.pending() == p0,
                all@.len() <= source.len(),
                all@ == source.skip(source.len() - all@.len()),
                st0.next_key + source.len() <= u64::MAX,
                self.next_key() <= st0.next_key + (source.len() - all@.len()),
                upsert_all(st0, source.take(source.len() - all@.len())) == (Staged {
                    nodes: self.nodes(),
                    next_key: self.next_key(),
                    work: work_view(work@),
                    moves: moves_view(moves@),
                }),
            decreases all@.len(),
        {
            let ghost done = source.len() - all@.len();
            let inst = all.remove(0);
            proof {
                assert(source.take(done + 1).drop_last() =~= source.take(done));
                assert(source[done] == inst);
                assert(all@ =~= source.skip(done + 1));
            }
            self.upsert(inst, &mut work, &mut moves);
        }
        assert(source.take(source.len() as int) =~= source);
        let ghost st = upsert_all(st0, source);
        assert(st.work == work_view(work@));
        assert(st.moves == moves_view(moves@));
        assert(st.nodes == self.nodes());
        self.merge_all(work);
        assert(self.nodes() == merge_work(st.nodes, st.work));
        self.update_all(updates);
        let ghost s2 = self.nodes();
        assert(s2 == apply_updates(merge_work(st.nodes, st.work), updates@));
        self.queue_all(moves);
        let ghost p2 = self.pending();
        assert(p2 == queue_moves(p0, s2, st.moves));
        assert(self.next_key() == st.next_key);
        self.reparent();
        let ghost s3 = self.nodes();
        let ghost p3 = self.pending();
        self.remove_all_ids(removals);
        assert(settles(s2, p2, s3, p3) && self.nodes() == remove_all(s3, removals@) && self.pending() == p3);
    }

    /// The node mirroring client id `id`.
    pub fn get(&self, id: &str) -> (r: Option<&MirrorNode>)
        ensures
            match r {
                Some(n) => key_of(self.nodes(), id@) == Some(n.key) && id_pos(self.nodes(), id@) is Some
                    && n@ == self.nodes()[id_pos(self.nodes(), id@)->0],
                None => key_of(self.nodes(), id@) is None,
            },
    {
        let id = id.to_owned();
        match self.position_of(&id) {
            Some(i) => {
                assert(self.nodes()[i as int] == self.nodes@[i as int]@);
                Some(&self.nodes[i])
            },
            None => None,
        }
    }

    /// The node with `key`.
    pub fn node(&self, key: u64) -> (r: Option<&MirrorNode>)
        ensures
            match r {
                Some(n) => has_key(self.nodes(), key) && n@ == node_of(self.nodes(), key) && n.key == key,
                None => !has_key(self.nodes(), key),
            },
    {
        proof {
            lemma_key_pos(self.nodes(), key);
        }
        match self.position_of_key(key) {
            Some(i) => {
                assert(self.nodes()[i as int] == self.nodes@[i as int]@);
                Some(&self.nodes[i])
            },
            None => None,
        }
    }

    /// The client id of the node with `key` (the root has none).
    pub fn id_of(&self, key: Option<u64>) -> (r: Option<&String>)
        ensures
            match r {
                Some(id) => key matches Some(k) && has_key(self.nodes(), k) && id@ == node_of(
                    self.nodes(),
                    k,
                ).id,
                None => key matches Some(k) ==> !has_key(self.nodes(), k),
            },
    {
        match key {
            None => None,
            Some(k) => match self.node(k) {
                Some(n) => Some(&n.id),
                None => None,
            },
        }
    }

    /// How many instances are mirrored, excluding the synthetic root.
    pub fn len(&self) -> (r: usize)
        ensures
            r == self.nodes().len(),
    {
        self.nodes.len()
    }

    /// Whether nothing has been mirrored yet.
    pub fn is_empty(&self) -> (r: bool)
        ensures
            r == (self.nodes().len() == 0),
    {
        self.nodes.len() == 0
    }

    /// Whether the node with `key` has children: the client said so, or one is
    /// mirrored under it.
    pub fn has_children(&self, key: u64) -> (r: bool)
        ensures
            r == (has_key(self.nodes(), key) && (node_of(self.nodes(), key).has_children || has_child(
                self.nodes(),
                key,
            ))),
    {
        let ghost s = self.nodes();
        let flagged = match self.node(key) {
            None => {
                return false;
            },
            Some(n) => n.has_children,
        };
        if flagged {
            return true;
        }
        assert(has_key(s, key));
        let mut i: usize = 0;
        while i < self.nodes.len()
            invariant
                s == self.nodes(),
                s.len() == self.nodes@.len(),
                i <= s.len(),
                forall|j: int| 0 <= j < i ==> s[j].parent != Some(key),
                has_key(s, key),
            decreases s.len() - i,
        {
            assert(s[i as int] == self.nodes@[i as int]@);
            if self.nodes[i].parent == Some(key) {
                assert(s[i as int].parent == Some(key));
                return true;
            }
            i = i + 1;
        }
        false
    }

    /// The keys of the nodes directly under `parent` (`None`: the root), in
    /// the order they were attached.
    pub fn children(&self, parent: Option<u64>) -> (r: Vec<u64>)
        ensures
            r@ == children_of(self.nodes(), parent),
    {
        let ghost s = self.nodes();
        let mut out: Vec<u64> = Vec::new();
        let mut i: usize = 0;
        assert(s.take(0) =~= Seq::<NodeView>::empty());
        while i < self.nodes.len()
            invariant
                s == self.nodes(),
                s.len() == self.nodes@.len(),
                i <= s.len(),
                out@ == children_of(s.take(i as int), parent),
            decreases s.len() - i,
        {
            assert(s[i as int] == self.nodes@[i as int]@);
            assert(s.take(i + 1).drop_last() =~= s.take(i as int));
            if self.nodes[i].parent == parent {
                out.push(self.nodes[i].key);
            }
            i = i + 1;
        }
        assert(s.take(s.len() as int) =~= s);
        out
    }
}

impl Default for SessionDom {
    fn default() -> (r: Self)
        ensures
            r.wf(),
            r.nodes() == Seq::<NodeView>::empty(),
            r.pending() == Map::<u64, Option<u64>>::empty(),
    {
        SessionDom::new()
    }
}

/// Walking a cycle through `k` `m` times returns to `k`.
proof fn lemma_up_cycle(s: Seq<NodeView>, k: u64, n: nat, m: nat)
    requires
        up(s, Some(k), n) == Some(k),
    ensures
        up(s, Some(k), n * m) == Some(k),
    decreases m,
{
    if m == 0 {
        assert(n * 0 == 0) by (nonlinear_arith);
    } else {
        lemma_up_cycle(s, k, n, (m - 1) as nat);
        assert(n * m == n * (m - 1) + n) by (nonlinear_arith)
            requires
                m >= 1,
        ;
        lemma_up_add(s, Some(k), n * ((m - 1) as nat), n);
    }
}

/// No mirrored instance is its own ancestor: the mirror is a tree under the
/// root.
pub proof fn lemma_no_cycles(s: Seq<NodeView>, next_key: u64, k: u64)
    requires
        nodes_wf(s, next_key),
        has_key(s, k),
    ensures
        !is_anc(s, k, k),
{
    lemma_key_pos(s, k);
    let i = key_pos(s, k)->0;
    assert(rooted(s, s[i].key));
    let f = choose|f: nat| #[trigger] up(s, Some(k), f) is None;
    if is_anc(s, k, k) {
        let n = choose|n: nat| n >= 1 && #[trigger] up(s, Some(k), n) == Some(k);
        lemma_up_cycle(s, k, n, f);
        assert(n * f >= f) by (nonlinear_arith)
            requires
                n >= 1,
        ;
        lemma_up_root(s, Some(k), f, n * f);
    }
}

/// Removing the node with key `r` takes exactly its subtree: every other
/// node stays, unchanged.
pub proof fn lemma_prune_exact(s: Seq<NodeView>, next_key: u64, r: u64, y: u64)
    requires
        nodes_wf(s, next_key),
    ensures
        nodes_wf(prune(s, r), next_key),
        has_key(prune(s, r), y) == (has_key(s, y) && !in_subtree(s, r, y)),
        has_key(prune(s, r), y) ==> node_of(prune(s, r), y) == node_of(s, y),
{
    lemma_keep_outside(s, s, r);
    lemma_prune_wf(s, next_key, r);
}

/// After the removals of a patch none of the removed ids is mirrored.
pub proof fn lemma_removed_ids_gone(s: Seq<NodeView>, next_key: u64, removals: Seq<String>)
    requires
        nodes_wf(s, next_key),
    ensures
        nodes_wf(remove_all(s, removals), next_key),
        forall|i: int| 0 <= i < removals.len() ==> key_of(remove_all(s, removals), #[trigger] removals[i]@) is None,
    decreases removals.len(),
{
    if removals.len() > 0 {
        let init = removals.drop_last();
        lemma_removed_ids_gone(s, next_key, init);
        let before = remove_all(s, init);
        let id = removals.last()@;
        match key_of(before, id) {
            Some(r) => {
                lemma_prune_wf(before, next_key, r);
                lemma_keep_outside(before, before, r);
                assert forall|i: int| 0 <= i < removals.len() implies key_of(
                    remove_all(s, removals),
                    #[trigger] removals[i]@,
                ) is None by {
                    if i < removals.len() - 1 {
                        assert(removals[i] == init[i]);
                        assert(key_of(before, init[i]@) is None);
                    }
                }
            },
            None => {
                assert forall|i: int| 0 <= i < removals.len() implies key_of(
                    remove_all(s, removals),
                    #[trigger] removals[i]@,
                ) is None by {
                    if i < removals.len() - 1 {
                        assert(removals[i] == init[i]);
                    }
                }
            },
        }
    }
}

/// Merging values changes nothing but the node's values.
proof fn lemma_merge_node_identity(
    s: Seq<NodeView>,
    key: u64,
    properties: Seq<(String, Option<DomValue>)>,
    attributes: Seq<(String, Option<DomValue>)>,
    tags: TagChange,
)
    ensures
        merge_node(s, key, properties, attributes, tags).len() == s.len(),
        forall|i: int|
            0 <= i < s.len() ==> #[trigger] merge_node(s, key, properties, attributes, tags)[i] == with_values(
                s[i],
                merge_node(s, key, properties, attributes, tags)[i].values,
            ),
{
    lemma_key_pos(s, key);
}

/// Updates change values only: every node keeps its key, id, parent, class,
/// name and child flag, in place.
pub proof fn lemma_updates_keep_identity(s: Seq<NodeView>, updates: Seq<DomUpdate>)
    ensures
        apply_updates(s, updates).len() == s.len(),
        forall|i: int|
            0 <= i < s.len() ==> #[trigger] apply_updates(s, updates)[i] == with_values(
                s[i],
                apply_updates(s, updates)[i].values,
            ),
    decreases updates.len(),
{
    if updates.len() > 0 {
        let before = apply_updates(s, updates.drop_last());
        lemma_updates_keep_identity(s, updates.drop_last());
        let d = updates.last();
        if let Some(k) = key_of(before, d.id@) {
            lemma_merge_node_identity(before, k, d.properties@, d.attributes@, d.tags);
            assert forall|i: int| 0 <= i < s.len() implies #[trigger] apply_updates(s, updates)[i] == with_values(
                s[i],
                apply_updates(s, updates)[i].values,
            ) by {
                assert(before[i] == with_values(s[i], before[i].values));
            }
        }
    }
}

/// The client id of the parent of the node with `key` (`None`: a root).
pub open spec fn parent_id_of(s: Seq<NodeView>, key: u64) -> Option<Seq<char>> {
    match node_of(s, key).parent {
        Some(p) => if has_key(s, p) {
            Some(node_of(s, p).id)
        } else {
            None
        },
        None => None,
    }
}

/// Whether the node with `key` shows as expandable: the client flagged it, or
/// a child of it is mirrored.
pub open spec fn expandable(s: Seq<NodeView>, key: u64) -> bool {
    has_key(s, key) && (node_of(s, key).has_children || has_child(s, key))
}

/// The keys reached breadth-first from `queue`, taking at most `fuel` of them.
pub open spec fn bfs(s: Seq<NodeView>, queue: Seq<u64>, fuel: nat) -> Seq<u64>
    decreases fuel,
{
    if fuel == 0 || queue.len() == 0 {
        Seq::empty()
    } else {
        seq![queue[0]] + bfs(s, queue.drop_first() + children_of(s, Some(queue[0])), (fuel - 1) as nat)
    }
}

/// What changed in a mirror: ids added, removed, moved, renamed, and ids
/// whose children changed.
#[derive(Debug, Clone, Default)]
pub struct DomChange {
    pub added: Vec<String>,
    pub removed: Vec<String>,
    pub moved: Vec<String>,
    pub renamed: Vec<String>,
    pub children_changed: Vec<String>,
}

/// What a change record lists.
pub struct ChangeV {
    pub added: Seq<Seq<char>>,
    pub removed: Seq<Seq<char>>,
    pub moved: Seq<Seq<char>>,
    pub renamed: Seq<Seq<char>>,
    pub children_changed: Seq<Seq<char>>,
}

impl View for DomChange {
    type V = ChangeV;

    open spec fn view(&self) -> ChangeV {
        ChangeV {
            added: strs(self.added@),
            removed: strs(self.removed@),
            moved: strs(self.moved@),
            renamed: strs(self.renamed@),
            children_changed: strs(self.children_changed@),
        }
    }
}

/// The text of each string.
pub open spec fn strs(v: Seq<String>) -> Seq<Seq<char>> {
    v.map_values(|s: String| s@)
}

/// What the change report remembers of a node from before a patch.
pub struct SummaryV {
    pub id: Seq<char>,
    pub parent: Option<Seq<char>>,
    pub name: Seq<char>,
    pub expandable: bool,
}

/// Each node of a mirror as the change report remembers it.
pub open spec fn summary_of(s: Seq<NodeView>) -> Seq<SummaryV> {
    s.map_values(
        |n: NodeView|
            SummaryV { id: n.id, parent: parent_id_of(s, n.key), name: n.name, expandable: expandable(s, n.key) },
    )
}

/// The first remembered node with `id`.
pub open spec fn find_summary(sum: Seq<SummaryV>, id: Seq<char>) -> Option<SummaryV>
    decreases sum.len(),
{
    if sum.len() == 0 {
        None
    } else if sum[0].id == id {
        Some(sum[0])
    } else {
        find_summary(sum.drop_first(), id)
    }
}

/// The remembered ids no longer mirrored in `s1`, in their old order.
pub open spec fn removed_ids(sum: Seq<SummaryV>, s1: Seq<NodeView>) -> Seq<Seq<char>>
    decreases sum.len(),
{
    if sum.len() == 0 {
        Seq::empty()
    } else {
        let before = removed_ids(sum.drop_last(), s1);
        if key_of(s1, sum.last().id) is None {
            before.push(sum.last().id)
        } else {
            before
        }
    }
}

/// The ids of the nodes of `order` that were not remembered, in order.
pub open spec fn added_ids(sum: Seq<SummaryV>, s1: Seq<NodeView>, order: Seq<u64>) -> Seq<Seq<char>>
    decreases order.len(),
{
    if order.len() == 0 {
        Seq::empty()
    } else {
        let before = added_ids(sum, s1, order.drop_last());
        let id = node_of(s1, order.last()).id;
        if find_summary(sum, id) is None {
            before.push(id)
        } else {
            before
        }
    }
}

/// Which facts about a remembered node a change concerns.
pub enum Aspect {
    Parent,
    Name,
    Children,
}

/// Whether a node of `s1` differs from what was remembered of it.
pub open spec fn differs(e: SummaryV, s1: Seq<NodeView>, n: NodeView, aspect: Aspect) -> bool {
    match aspect {
        Aspect::Parent => e.parent != parent_id_of(s1, n.key),
        Aspect::Name => e.name != n.name,
        Aspect::Children => e.expandable != expandable(s1, n.key),
    }
}

/// The ids of the nodes of `nodes` (from `s1`) that were remembered and
/// differ in `aspect`, in order.
pub open spec fn changed_ids(sum: Seq<SummaryV>, s1: Seq<NodeView>, nodes: Seq<NodeView>, aspect: Aspect) -> Seq<
    Seq<char>,
>
    decreases nodes.len(),
{
    if nodes.len() == 0 {
        Seq::empty()
    } else {
        let before = changed_ids(sum, s1, nodes.drop_last(), aspect);
        let n = nodes.last();
        match find_summary(sum, n.id) {
            Some(e) => if differs(e, s1, n, aspect) {
                before.push(n.id)
            } else {
                before
            },
            None => before,
        }
    }
}

/// What changed from the mirror `s0` to `s1`: ids added (breadth first, so
/// parents come before their children), removed, moved, renamed, and ids whose
/// expandable flag changed.
pub open spec fn diff(s0: Seq<NodeView>, s1: Seq<NodeView>) -> ChangeV {
    let sum = summary_of(s0);
    ChangeV {
        added: added_ids(sum, s1, bfs(s1, children_of(s1, None), s1.len())),
        removed: removed_ids(sum, s1),
        moved: changed_ids(sum, s1, s1, Aspect::Parent),
        renamed: changed_ids(sum, s1, s1, Aspect::Name),
        children_changed: changed_ids(sum, s1, s1, Aspect::Children),
    }
}

/// What `find_summary` finds: the first remembered node with the id.
proof fn lemma_find_summary(sum: Seq<SummaryV>, id: Seq<char>)
    ensures
        match find_summary(sum, id) {
            Some(e) => exists|j: int|
                0 <= j < sum.len() && sum[j] == e && e.id == id && forall|k: int| 0 <= k < j ==> sum[k].id != id,
            None => forall|j: int| 0 <= j < sum.len() ==> sum[j].id != id,
        },
    decreases sum.len(),
{
    if sum.len() > 0 && sum[0].id != id {
        let rest = sum.drop_first();
        lemma_find_summary(rest, id);
        match find_summary(rest, id) {
            Some(e) => {
                let j = choose|j: int|
                    0 <= j < rest.len() && rest[j] == e && e.id == id && forall|k: int| 0 <= k < j ==> rest[k].id != id;
                assert(sum[j + 1] == rest[j]);
                assert forall|k: int| 0 <= k < j + 1 implies sum[k].id != id by {
                    if k > 0 {
                        assert(sum[k] == rest[k - 1]);
                    }
                }
            },
            None => {
                assert forall|j: int| 0 <= j < sum.len() implies sum[j].id != id by {
                    if j > 0 {
                        assert(sum[j] == rest[j - 1]);
                    }
                }
            },
        }
    } else if sum.len() > 0 {
        assert(sum[0] == sum[0]);
    }
}

/// With unique ids, what the report remembers of an id is its node in `s0`.
proof fn lemma_remembered(s0: Seq<NodeView>, id: Seq<char>)
    requires
        keys_unique(s0),
        ids_unique(s0),
    ensures
        match key_of(s0, id) {
            Some(k) => find_summary(summary_of(s0), id) == Some(
                SummaryV {
                    id,
                    parent: parent_id_of(s0, k),
                    name: node_of(s0, k).name,
                    expandable: expandable(s0, k),
                },
            ),
            None => find_summary(summary_of(s0), id) is None,
        },
{
    let sum = summary_of(s0);
    lemma_find_summary(sum, id);
    lemma_id_pos(s0, id);
    match find_summary(sum, id) {
        Some(e) => {
            let j = choose|j: int|
                0 <= j < sum.len() && sum[j] == e && e.id == id && forall|k: int| 0 <= k < j ==> sum[k].id != id;
            assert(s0[j].id == id);
            lemma_id_at(s0, j);
            lemma_key_at(s0, j);
        },
        None => {
            if let Some(i) = id_pos(s0, id) {
                assert(sum[i].id == s0[i].id);
            }
        },
    }
}

/// Which ids `changed_ids` lists: those of the listed nodes that were
/// remembered and differ in the aspect.
proof fn lemma_changed_members(sum: Seq<SummaryV>, s1: Seq<NodeView>, nodes: Seq<NodeView>, aspect: Aspect)
    ensures
        forall|x: Seq<char>|
            #[trigger] changed_ids(sum, s1, nodes, aspect).contains(x) <==> exists|i: int|
                0 <= i < nodes.len() && nodes[i].id == x && (find_summary(sum, x) matches Some(e) && differs(
                    e,
                    s1,
                    nodes[i],
                    aspect,
                )),
    decreases nodes.len(),
{
    if nodes.len() > 0 {
        let init = nodes.drop_last();
        lemma_changed_members(sum, s1, init, aspect);
        let c = changed_ids(sum, s1, nodes, aspect);
        let ci = changed_ids(sum, s1, init, aspect);
        let n = nodes.last();
        assert forall|x: Seq<char>| c.contains(x) <==> exists|i: int|
            0 <= i < nodes.len() && nodes[i].id == x && (find_summary(sum, x) matches Some(e) && differs(
                e,
                s1,
                nodes[i],
                aspect,
            )) by {
            let pushed = find_summary(sum, n.id) matches Some(e) && differs(e, s1, n, aspect);
            if pushed {
                assert(c == ci.push(n.id));
            } else {
                assert(c == ci);
            }
            if c.contains(x) {
                if ci.contains(x) {
                    let i = choose|i: int|
                        0 <= i < init.len() && init[i].id == x && (find_summary(sum, x) matches Some(e) && differs(
                            e,
                            s1,
                            init[i],
                            aspect,
                        ));
                    assert(nodes[i] == init[i]);
                } else {
                    let j = choose|j: int| 0 <= j < c.len() && c[j] == x;
                    if j < ci.len() {
                        assert(c[j] == ci[j]);
                    }
                    assert(nodes[nodes.len() - 1] == n);
                }
            }
            if exists|i: int|
                0 <= i < nodes.len() && nodes[i].id == x && (find_summary(sum, x) matches Some(e) && differs(
                    e,
                    s1,
                    nodes[i],
                    aspect,
                )) {
                let i = choose|i: int|
                    0 <= i < nodes.len() && nodes[i].id == x && (find_summary(sum, x) matches Some(e) && differs(
                        e,
                        s1,
                        nodes[i],
                        aspect,
                    ));
                if i < init.len() {
                    assert(init[i] == nodes[i]);
                    assert(ci.contains(x));
                    let j = choose|j: int| 0 <= j < ci.len() && ci[j] == x;
                    if pushed {
                        assert(c[j] == ci[j]);
                    }
                } else {
                    assert(c[c.len() - 1] == x);
                }
            }
        }
    }
}

/// The node a well-formed mirror holds for an id, as the report compares it.
proof fn lemma_changed_exactly(s0: Seq<NodeView>, nk0: u64, s1: Seq<NodeView>, nk1: u64, aspect: Aspect, id: Seq<char>)
    requires
        nodes_wf(s0, nk0),
        nodes_wf(s1, nk1),
    ensures
        changed_ids(summary_of(s0), s1, s1, aspect).contains(id) <==> (key_of(s0, id) is Some && key_of(s1, id) is Some
            && match aspect {
            Aspect::Parent => parent_id_of(s0, key_of(s0, id)->0) != parent_id_of(s1, key_of(s1, id)->0),
            Aspect::Name => node_of(s0, key_of(s0, id)->0).name != node_of(s1, key_of(s1, id)->0).name,
            Aspect::Children => expandable(s0, key_of(s0, id)->0) != expandable(s1, key_of(s1, id)->0),
        }),
{
    lemma_changed_members(summary_of(s0), s1, s1, aspect);
    lemma_remembered(s0, id);
    lemma_id_pos(s1, id);
    if let Some(i) = id_pos(s1, id) {
        lemma_key_at(s1, i);
        lemma_id_at(s1, i);
        assert(node_of(s1, key_of(s1, id)->0) == s1[i]);
    }
    if changed_ids(summary_of(s0), s1, s1, aspect).contains(id) {
        let i = choose|i: int|
            0 <= i < s1.len() && s1[i].id == id && (find_summary(summary_of(s0), id) matches Some(e) && differs(
                e,
                s1,
                s1[i],
                aspect,
            ));
        lemma_id_at(s1, i);
        lemma_key_at(s1, i);
    }
}

/// A remembered node is reported renamed exactly when its name now differs
/// from the remembered one, whether or not it also moved.
pub proof fn lemma_renamed_exactly(s0: Seq<NodeView>, nk0: u64, s1: Seq<NodeView>, nk1: u64, id: Seq<char>)
    requires
        nodes_wf(s0, nk0),
        nodes_wf(s1, nk1),
    ensures
        diff(s0, s1).renamed.contains(id) <==> (key_of(s0, id) is Some && key_of(s1, id) is Some && node_of(
            s0,
            key_of(s0, id)->0,
        ).name != node_of(s1, key_of(s1, id)->0).name),
{
    lemma_changed_exactly(s0, nk0, s1, nk1, Aspect::Name, id);
}

/// A remembered node is reported moved exactly when its parent's id now
/// differs from the remembered one, whether or not it was also renamed.
pub proof fn lemma_moved_exactly(s0: Seq<NodeView>, nk0: u64, s1: Seq<NodeView>, nk1: u64, id: Seq<char>)
    requires
        nodes_wf(s0, nk0),
        nodes_wf(s1, nk1),
    ensures
        diff(s0, s1).moved.contains(id) <==> (key_of(s0, id) is Some && key_of(s1, id) is Some && parent_id_of(
            s0,
            key_of(s0, id)->0,
        ) != parent_id_of(s1, key_of(s1, id)->0)),
{
    lemma_changed_exactly(s0, nk0, s1, nk1, Aspect::Parent, id);
}

/// A remembered node is reported with changed children exactly when whether
/// it shows as expandable changed.
pub proof fn lemma_children_changed_exactly(s0: Seq<NodeView>, nk0: u64, s1: Seq<NodeView>, nk1: u64, id: Seq<char>)
    requires
        nodes_wf(s0, nk0),
        nodes_wf(s1, nk1),
    ensures
        diff(s0, s1).children_changed.contains(id) <==> (key_of(s0, id) is Some && key_of(s1, id) is Some
            && expandable(s0, key_of(s0, id)->0) != expandable(s1, key_of(s1, id)->0)),
{
    lemma_changed_exactly(s0, nk0, s1, nk1, Aspect::Children, id);
}

impl DomChange {
    /// Whether nothing changed.
    pub fn is_empty(&self) -> (r: bool)
        ensures
            r == (self.added@.len() == 0 && self.removed@.len() == 0 && self.moved@.len() == 0
                && self.renamed@.len() == 0 && self.children_changed@.len() == 0),
    {
        self.added.len() == 0 && self.removed.len() == 0 && self.moved.len() == 0 && self.renamed.len() == 0
            && self.children_changed.len() == 0
    }
}

/// What the change report remembers of a node from before a patch.
#[derive(Debug)]
pub struct Summary {
    pub id: String,
    pub parent: Option<String>,
    pub name: String,
    pub expandable: bool,
}

impl View for Summary {
    type V = SummaryV;

    open spec fn view(&self) -> SummaryV {
        SummaryV {
            id: self.id@,
            parent: match self.parent {
                Some(p) => Some(p@),
                None => None,
            },
            name: self.name@,
            expandable: self.expandable,
        }
    }
}

/// What each summary says.
pub open spec fn summaries(v: Seq<Summary>) -> Seq<SummaryV> {
    v.map_values(|x: Summary| x@)
}

/// The position of the first summary with `id`.
fn find_in(sum: &Vec<Summary>, id: &String) -> (r: Option<usize>)
    ensures
        match find_summary(summaries(sum@), id@) {
            Some(e) => r matches Some(i) && i < sum@.len() && sum@[i as int]@ == e,
            None => r is None,
        },
{
    let ghost all = summaries(sum@);
    let mut k: usize = 0;
    assert(all.skip(0) =~= all);
    while k < sum.len()
        invariant
            all == summaries(sum@),
            k <= sum@.len(),
            find_summary(all, id@) == find_summary(all.skip(k as int), id@),
        decreases sum@.len() - k,
    {
        assert(all.skip(k as int)[0] == sum@[k as int]@);
        assert(all.skip(k as int).drop_first() =~= all.skip(k + 1));
        if sum[k].id == *id {
            return Some(k);
        }
        k = k + 1;
    }
    assert(all.skip(k as int) =~= Seq::<SummaryV>::empty());
    None
}

/// Whether an optional string is the given optional text.
fn same_parent(a: &Option<String>, b: Option<&String>) -> (r: bool)
    ensures
        r == (match *a {
            Some(x) => Some(x@),
            None => None,
        } == match b {
            Some(y) => Some(y@),
            None => None::<Seq<char>>,
        }),
{
    match (a, b) {
        (Some(x), Some(y)) => *x == *y,
        (None, None) => true,
        _ => false,
    }
}

impl SessionDom {
    /// What the change report remembers of every node.
    pub fn summarize(&self) -> (r: Vec<Summary>)
        requires
            self.wf(),
        ensures
            summaries(r@) == summary_of(self.nodes()),
    {
        let ghost s = self.nodes();
        let mut out: Vec<Summary> = Vec::new();
        let mut i: usize = 0;
        while i < self.nodes.len()
            invariant
                s == self.nodes(),
                self.wf(),
                s.len() == self.nodes@.len(),
                i <= s.len(),
                summaries(out@) == summary_of(s).take(i as int),
            decreases s.len() - i,
        {
            let node = &self.nodes[i];
            assert(s[i as int] == node@);
            proof {
                lemma_key_at(s, i as int);
            }
            let parent = match self.id_of(node.parent) {
                Some(p) => Some(p.clone()),
                None => None,
            };
            let flag = self.has_children(node.key);
            let ghost before = summaries(out@);
            out.push(Summary { id: node.id.clone(), parent, name: node.name.clone(), expandable: flag });
            assert(summaries(out@) =~= before.push(summary_of(s)[i as int]));
            assert(summary_of(s).take(i + 1) =~= summary_of(s).take(i as int).push(summary_of(s)[i as int]));
            i = i + 1;
        }
        assert(summary_of(s).take(s.len() as int) =~= summary_of(s));
        out
    }

    /// The ids of `before` no longer mirrored, in order.
    fn report_removed(&self, before: &Vec<Summary>) -> (r: Vec<String>)
        ensures
            strs(r@) == removed_ids(summaries(before@), self.nodes()),
    {
        let ghost sum = summaries(before@);
        let mut out: Vec<String> = Vec::new();
        let mut i: usize = 0;
        assert(sum.take(0) =~= Seq::<SummaryV>::empty());
        while i < before.len()
            invariant
                sum == summaries(before@),
                i <= before@.len(),
                strs(out@) == removed_ids(sum.take(i as int), self.nodes()),
            decreases before@.len() - i,
        {
            assert(sum.take(i + 1).drop_last() =~= sum.take(i as int));
            assert(sum.take(i + 1).last() == before@[i as int]@);
            let ghost prev = strs(out@);
            if self.get(before[i].id.as_str()).is_none() {
                out.push(before[i].id.clone());
                assert(strs(out@) =~= prev.push(before@[i as int].id@));
            }
            i = i + 1;
        }
        assert(sum.take(before@.len() as int) =~= sum);
        out
    }

    /// The ids, breadth first, of the nodes `before` does not remember.
    fn report_added(&self, before: &Vec<Summary>) -> (r: Vec<String>)
        requires
            self.wf(),
        ensures
            strs(r@) == added_ids(
                summaries(before@),
                self.nodes(),
                bfs(self.nodes(), children_of(self.nodes(), None), self.nodes().len()),
            ),
    {
        let ghost s = self.nodes();
        let ghost sum = summaries(before@);
        let roots = self.children(None);
        let mut queue = self.children(None);
        let mut fuel = self.len();
        let ghost order = bfs(s, roots@, s.len());
        let ghost mut visited: Seq<u64> = Seq::empty();
        let mut out: Vec<String> = Vec::new();
        proof {
            lemma_children_keys(s, None);
        }
        while fuel > 0 && queue.len() > 0
            invariant
                s == self.nodes(),
                self.wf(),
                sum == summaries(before@),
                order == bfs(s, children_of(s, None), s.len()),
                forall|j: int| 0 <= j < queue@.len() ==> has_key(s, #[trigger] queue@[j]),
                visited + bfs(s, queue@, fuel as nat) == order,
                strs(out@) == added_ids(sum, s, visited),
            decreases fuel,
        {
            let ghost q = queue@;
            let k = queue.remove(0);
            assert(has_key(s, q[0]));
            let mut more = self.children(Some(k));
            proof {
                lemma_children_keys(s, Some(k));
            }
            queue.append(&mut more);
            proof {
                assert(queue@ =~= q.drop_first() + children_of(s, Some(k)));
                assert(visited.push(k) + bfs(s, queue@, (fuel - 1) as nat) =~= visited + bfs(s, q, fuel as nat));
                assert(visited.push(k).drop_last() =~= visited);
            }
            fuel = fuel - 1;
            let ghost prev = strs(out@);
            match self.node(k) {
                Some(node) => {
                    if find_in(before, &node.id).is_none() {
                        out.push(node.id.clone());
                        assert(strs(out@) =~= prev.push(node.id@));
                    }
                },
                None => {},
            }
            proof {
                visited = visited.push(k);
            }
        }
        assert(bfs(s, queue@, fuel as nat) =~= Seq::<u64>::empty());
        assert(visited =~= order);
        out
    }

    /// The ids of remembered nodes that moved, were renamed, or changed their
    /// expandable flag, in node order.
    fn report_changed(&self, before: &Vec<Summary>) -> (r: (Vec<String>, Vec<String>, Vec<String>))
        requires
            self.wf(),
        ensures
            strs(r.0@) == changed_ids(summaries(before@), self.nodes(), self.nodes(), Aspect::Parent),
            strs(r.1@) == changed_ids(summaries(before@), self.nodes(), self.nodes(), Aspect::Name),
            strs(r.2@) == changed_ids(summaries(before@), self.nodes(), self.nodes(), Aspect::Children),
    {
        let ghost s = self.nodes();
        let ghost sum = summaries(before@);
        let mut moved: Vec<String> = Vec::new();
        let mut renamed: Vec<String> = Vec::new();
        let mut flagged: Vec<String> = Vec::new();
        let mut i: usize = 0;
        assert(s.take(0) =~= Seq::<NodeView>::empty());
        while i < self.nodes.len()
            invariant
                s == self.nodes(),
                self.wf(),
                sum == summaries(before@),
                s.len() == self.nodes@.len(),
                i <= s.len(),
                strs(moved@) == changed_ids(sum, s, s.take(i as int), Aspect::Parent),
                strs(renamed@) == changed_ids(sum, s, s.take(i as int), Aspect::Name),
                strs(flagged@) == changed_ids(sum, s, s.take(i as int), Aspect::Children),
            decreases s.len() - i,
        {
            let node = &self.nodes[i];
            assert(s[i as int] == node@);
            assert(s.take(i + 1).drop_last() =~= s.take(i as int));
            assert(s.take(i + 1).last() == node@);
            proof {
                lemma_key_at(s, i as int);
            }
            match find_in(before, &node.id) {
                None => {},
                Some(j) => {
                    let entry = &before[j];
                    let ghost pm = strs(moved@);
                    let ghost pr = strs(renamed@);
                    let ghost pf = strs(flagged@);
                    if !same_parent(&entry.parent, self.id_of(node.parent)) {
                        moved.push(node.id.clone());
                        assert(strs(moved@) =~= pm.push(node.id@));
                    }
                    if entry.name != node.name {
                        renamed.push(node.id.clone());
                        assert(strs(renamed@) =~= pr.push(node.id@));
                    }
                    if entry.expandable != self.has_children(node.key) {
                        flagged.push(node.id.clone());
                        assert(strs(flagged@) =~= pf.push(node.id@));
                    }
                },
            }
            i = i + 1;
        }
        assert(s.take(s.len() as int) =~= s);
        (moved, renamed, flagged)
    }

    /// Merge a patch, as `apply` does, and report what changed.
    pub fn apply_reporting(&mut self, patch: DomPatch) -> (r: DomChange)
        requires
            old(self).wf(),
            old(self).next_key() + patch.upserts@.len() <= u64::MAX,
        ensures
            final(self).wf(),
            patched(
                old(self).nodes(),
                old(self).pending(),
                old(self).next_key(),
                patch,
                final(self).nodes(),
                final(self).pending(),
                final(self).next_key(),
            ),
            r@ == diff(old(self).nodes(), final(self).nodes()),
            forall|id: Seq<char>|
                #[trigger] r@.renamed.contains(id) <==> (key_of(old(self).nodes(), id) is Some && key_of(
                    final(self).nodes(),
                    id,
                ) is Some && node_of(old(self).nodes(), key_of(old(self).nodes(), id)->0).name != node_of(
                    final(self).nodes(),
                    key_of(final(self).nodes(), id)->0,
                ).name),
            forall|id: Seq<char>|
                #[trigger] r@.moved.contains(id) <==> (key_of(old(self).nodes(), id) is Some && key_of(
                    final(self).nodes(),
                    id,
                ) is Some && parent_id_of(old(self).nodes(), key_of(old(self).nodes(), id)->0) != parent_id_of(
                    final(self).nodes(),
                    key_of(final(self).nodes(), id)->0,
                )),
    {
        let ghost s0 = self.nodes();
        let ghost nk0 = self.next_key();
        let before = self.summarize();
        self.apply(patch);
        let removed = self.report_removed(&before);
        let added = self.report_added(&before);
        let (moved, renamed, children_changed) = self.report_changed(&before);
        let r = DomChange { added, removed, moved, renamed, children_changed };
        proof {
            assert forall|id: Seq<char>| #[trigger] r@.renamed.contains(id) <==> (key_of(s0, id) is Some && key_of(
                self.nodes(),
                id,
            ) is Some && node_of(s0, key_of(s0, id)->0).name != node_of(self.nodes(), key_of(self.nodes(), id)->0).name) by {
                lemma_renamed_exactly(s0, nk0, self.nodes(), self.next_key(), id);
            }
            assert forall|id: Seq<char>| #[trigger] r@.moved.contains(id) <==> (key_of(s0, id) is Some && key_of(
                self.nodes(),
                id,
            ) is Some && parent_id_of(s0, key_of(s0, id)->0) != parent_id_of(self.nodes(), key_of(self.nodes(), id)->0)) by {
                lemma_moved_exactly(s0, nk0, self.nodes(), self.next_key(), id);
            }
        }
        r
    }
}

/// Every key listed under a parent is a mirrored node.
proof fn lemma_children_keys(s: Seq<NodeView>, parent: Option<u64>)
    ensures
        forall|j: int| 0 <= j < children_of(s, parent).len() ==> has_key(s, #[trigger] children_of(s, parent)[j]),
    decreases s.len(),
{
    if s.len() > 0 {
        let init = s.drop_last();
        lemma_children_keys(init, parent);
        let c = children_of(s, parent);
        let ci = children_of(init, parent);
        assert forall|j: int| 0 <= j < c.len() implies has_key(s, #[trigger] c[j]) by {
            if j < ci.len() {
                assert(c[j] == ci[j]);
                lemma_key_pos(init, ci[j]);
                let i = key_pos(init, ci[j])->0;
                assert(init[i] == s[i]);
                lemma_key_pos(s, ci[j]);
                if key_pos(s, ci[j]) is None {
                    assert(s[i].key == ci[j]);
                }
            } else {
                lemma_key_pos(s, s.last().key);
                if key_pos(s, s.last().key) is None {
                    assert(s[s.len() - 1].key == s.last().key);
                }
            }
        }
    }
}

} // verus!
