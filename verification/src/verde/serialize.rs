//! The mirror as verde's explorer sees it: shallow nodes, snapshots, children
//! and search results.

use vstd::prelude::*;

use crate::dom::{
    bfs, children_of as child_keys, expandable, has_key, key_of, lemma_id_pos, lemma_key_at, lemma_key_pos, node_of,
    parent_id_of, MirrorNode, NodeView, SessionDom,
};
use crate::hex::push_char;
use crate::query::chars_of;
use crate::verde::explorer::{contains_text, nodes_view, texts, Node, NodeV, Snapshot};

verus! {

/// The explorer node for the node with `key`, listing `children`.
pub open spec fn node_view(s: Seq<NodeView>, key: u64, children: Seq<Seq<char>>, has_children: bool) -> NodeV {
    NodeV {
        id: node_of(s, key).id,
        name: node_of(s, key).name,
        class_name: node_of(s, key).class,
        parent_id: parent_id_of(s, key),
        children,
        has_children: Some(has_children),
        disabled: None,
        run_context: None,
    }
}

/// A shallow explorer node: identity, parent and the expandable flag.
pub open spec fn shallow_view(s: Seq<NodeView>, key: u64) -> NodeV {
    node_view(s, key, Seq::empty(), expandable(s, key))
}

/// The client ids of a list of node keys.
pub open spec fn ids_of(s: Seq<NodeView>, keys: Seq<u64>) -> Seq<Seq<char>> {
    keys.map_values(|k: u64| node_of(s, k).id)
}

/// A deep explorer node: it lists the ids of its mirrored children.
pub open spec fn full_view(s: Seq<NodeView>, key: u64) -> NodeV {
    let children = ids_of(s, child_keys(s, Some(key)));
    node_view(s, key, children, children.len() > 0)
}

/// Every key listed under a parent is a mirrored node with that parent.
pub proof fn lemma_children_present(s: Seq<NodeView>, parent: Option<u64>)
    requires
        forall|i: int, j: int| 0 <= i < s.len() && 0 <= j < s.len() && i != j ==> s[i].key != s[j].key,
    ensures
        forall|j: int|
            0 <= j < child_keys(s, parent).len() ==> has_key(s, #[trigger] child_keys(s, parent)[j]) && node_of(
                s,
                child_keys(s, parent)[j],
            ).parent == parent,
    decreases s.len(),
{
    if s.len() > 0 {
        let init = s.drop_last();
        lemma_children_present(init, parent);
        let c = child_keys(s, parent);
        assert forall|j: int| 0 <= j < c.len() implies has_key(s, #[trigger] c[j]) && node_of(s, c[j]).parent
            == parent by {
            let ci = child_keys(init, parent);
            if j < ci.len() {
                assert(c[j] == ci[j]);
                lemma_key_pos(init, ci[j]);
                let i = crate::dom::key_pos(init, ci[j])->0;
                assert(init[i] == s[i]);
                lemma_key_at(s, i);
            } else {
                lemma_key_at(s, s.len() - 1);
            }
        }
    }
}

/// The explorer node for `node`, listing `children`.
fn node_for(dom: &SessionDom, node: &MirrorNode, children: Vec<String>, has_children: bool) -> (r: Node)
    requires
        dom.wf(),
        has_key(dom.nodes(), node.key),
        node@ == node_of(dom.nodes(), node.key),
    ensures
        r@ == node_view(dom.nodes(), node.key, texts(children@), has_children),
{
    let parent_id = match dom.id_of(node.parent) {
        Some(id) => Some(id.clone()),
        None => None,
    };
    Node {
        id: node.id.clone(),
        name: node.name.clone(),
        class_name: node.class.clone(),
        parent_id,
        children,
        has_children: Some(has_children),
        disabled: None,
        run_context: None,
    }
}

/// The shallow explorer node of the mirrored node with `key`.
fn shallow_by_key(dom: &SessionDom, key: u64) -> (r: Option<Node>)
    requires
        dom.wf(),
    ensures
        match r {
            Some(n) => has_key(dom.nodes(), key) && n@ == shallow_view(dom.nodes(), key),
            None => !has_key(dom.nodes(), key),
        },
{
    match dom.node(key) {
        Some(node) => {
            let flag = dom.has_children(key);
            let none: Vec<String> = Vec::new();
            assert(texts(none@) =~= Seq::<Seq<char>>::empty());
            let n = node_for(dom, node, none, flag);
            Some(n)
        },
        None => None,
    }
}

/// A shallow node: identity + parent + a `hasChildren` flag, no children
/// listed; `None` for an id that is not mirrored.
pub fn shallow_node(dom: &SessionDom, id: &str) -> (r: Option<Node>)
    requires
        dom.wf(),
    ensures
        match key_of(dom.nodes(), id@) {
            Some(k) => r matches Some(n) && n@ == shallow_view(dom.nodes(), k),
            None => r is None,
        },
{
    let ghost s = dom.nodes();
    match dom.get(id) {
        Some(node) => {
            proof {
                lemma_id_pos(s, id@);
                lemma_key_at(s, crate::dom::id_pos(s, id@)->0);
            }
            shallow_by_key(dom, node.key)
        },
        None => None,
    }
}

/// The shallow nodes of a list of keys, and their ids.
fn shallow_list(dom: &SessionDom, keys: &Vec<u64>) -> (r: (Vec<String>, Vec<Node>))
    requires
        dom.wf(),
        forall|j: int| 0 <= j < keys@.len() ==> has_key(dom.nodes(), #[trigger] keys@[j]),
    ensures
        texts(r.0@) == ids_of(dom.nodes(), keys@),
        nodes_view(r.1@) == keys@.map_values(|k: u64| shallow_view(dom.nodes(), k)),
{
    let ghost s = dom.nodes();
    let mut ids: Vec<String> = Vec::new();
    let mut nodes: Vec<Node> = Vec::new();
    let mut i: usize = 0;
    while i < keys.len()
        invariant
            s == dom.nodes(),
            dom.wf(),
            i <= keys@.len(),
            forall|j: int| 0 <= j < keys@.len() ==> has_key(s, #[trigger] keys@[j]),
            texts(ids@) == ids_of(s, keys@.take(i as int)),
            nodes_view(nodes@) == keys@.take(i as int).map_values(|k: u64| shallow_view(s, k)),
        decreases keys@.len() - i,
    {
        let k = keys[i];
        assert(has_key(s, keys@[i as int]));
        let ghost old_ids = ids@;
        let ghost old_nodes = nodes@;
        assert(keys@.take(i + 1) =~= keys@.take(i as int).push(k));
        match dom.node(k) {
            Some(node) => {
                let flag = dom.has_children(k);
                let none: Vec<String> = Vec::new();
                assert(texts(none@) =~= Seq::<Seq<char>>::empty());
                let n = node_for(dom, node, none, flag);
                ids.push(node.id.clone());
                nodes.push(n);
                assert(texts(ids@) =~= texts(old_ids).push(node_of(s, k).id));
                assert(nodes_view(nodes@) =~= nodes_view(old_nodes).push(shallow_view(s, k)));
            },
            None => {},
        }
        assert(ids_of(s, keys@.take(i + 1)) =~= ids_of(s, keys@.take(i as int)).push(node_of(s, k).id));
        assert(keys@.take(i + 1).map_values(|k: u64| shallow_view(s, k)) =~= keys@.take(i as int).map_values(
            |k: u64| shallow_view(s, k),
        ).push(shallow_view(s, k)));
        i = i + 1;
    }
    assert(keys@.take(keys@.len() as int) =~= keys@);
    (ids, nodes)
}

/// The roots-only snapshot: the mirrored services, shallow.
pub fn roots(dom: &SessionDom) -> (r: Snapshot)
    requires
        dom.wf(),
    ensures
        r@.root_ids == ids_of(dom.nodes(), child_keys(dom.nodes(), None)),
        r@.nodes == child_keys(dom.nodes(), None).map_values(|k: u64| shallow_view(dom.nodes(), k)),
{
    let keys = dom.children(None);
    proof {
        lemma_children_present(dom.nodes(), None);
    }
    let (root_ids, nodes) = shallow_list(dom, &keys);
    Snapshot { root_ids, nodes }
}

/// The shallow nodes of `parent`'s immediate children; none when `parent` is
/// not mirrored.
pub fn children_of(dom: &SessionDom, parent: &str) -> (r: Vec<Node>)
    requires
        dom.wf(),
    ensures
        nodes_view(r@) == match key_of(dom.nodes(), parent@) {
            Some(k) => child_keys(dom.nodes(), Some(k)).map_values(|c: u64| shallow_view(dom.nodes(), c)),
            None => Seq::empty(),
        },
{
    match dom.get(parent) {
        Some(node) => {
            let keys = dom.children(Some(node.key));
            proof {
                lemma_children_present(dom.nodes(), Some(node.key));
            }
            let (_, nodes) = shallow_list(dom, &keys);
            nodes
        },
        None => {
            let nodes: Vec<Node> = Vec::new();
            assert(nodes_view(nodes@) =~= Seq::<NodeV>::empty());
            nodes
        },
    }
}

/// The deep explorer node of the mirrored node with `key`.
fn full_by_key(dom: &SessionDom, key: u64) -> (r: Node)
    requires
        dom.wf(),
        has_key(dom.nodes(), key),
    ensures
        r@ == full_view(dom.nodes(), key),
{
    let keys = dom.children(Some(key));
    proof {
        lemma_children_present(dom.nodes(), Some(key));
    }
    let (ids, _) = shallow_list(dom, &keys);
    let flag = ids.len() > 0;
    proof {
        assert(texts(ids@).len() == ids@.len());
    }
    match dom.node(key) {
        Some(node) => node_for(dom, node, ids, flag),
        None => {
            proof {
                assert(false);
            }
            node_for(dom, dom.node(key).unwrap(), ids, flag)
        },
    }
}

/// The whole mirrored tree, deep, breadth first from the services: every node
/// lists its child ids.
pub fn full(dom: &SessionDom) -> (r: Snapshot)
    requires
        dom.wf(),
    ensures
        r@.root_ids == ids_of(dom.nodes(), child_keys(dom.nodes(), None)),
        r@.nodes == bfs(dom.nodes(), child_keys(dom.nodes(), None), dom.nodes().len()).map_values(
            |k: u64| full_view(dom.nodes(), k),
        ),
{
    let ghost s = dom.nodes();
    let roots = dom.children(None);
    proof {
        lemma_children_present(s, None);
    }
    let (root_ids, _) = shallow_list(dom, &roots);
    let mut queue = dom.children(None);
    let mut fuel = dom.len();
    let ghost order = bfs(s, roots@, s.len());
    let ghost mut visited: Seq<u64> = Seq::empty();
    let mut nodes: Vec<Node> = Vec::new();
    while fuel > 0 && queue.len() > 0
        invariant
            s == dom.nodes(),
            dom.wf(),
            forall|j: int| 0 <= j < queue@.len() ==> has_key(s, #[trigger] queue@[j]),
            visited + bfs(s, queue@, fuel as nat) == order,
            nodes_view(nodes@) == visited.map_values(|k: u64| full_view(s, k)),
        decreases fuel,
    {
        let ghost q = queue@;
        let k = queue.remove(0);
        assert(has_key(s, q[0]));
        let node = full_by_key(dom, k);
        let ghost old_nodes = nodes@;
        nodes.push(node);
        assert(nodes_view(nodes@) =~= nodes_view(old_nodes).push(full_view(s, k)));
        let mut more = dom.children(Some(k));
        proof {
            lemma_children_present(s, Some(k));
        }
        queue.append(&mut more);
        proof {
            assert(queue@ =~= q.drop_first() + child_keys(s, Some(k)));
            assert(visited.push(k) + bfs(s, queue@, (fuel - 1) as nat) =~= visited + bfs(s, q, fuel as nat));
            assert(visited.push(k).map_values(|k: u64| full_view(s, k)) =~= visited.map_values(
                |k: u64| full_view(s, k),
            ).push(full_view(s, k)));
            visited = visited.push(k);
        }
        fuel = fuel - 1;
    }
    assert(bfs(s, queue@, fuel as nat) =~= Seq::<u64>::empty());
    assert(visited =~= order);
    Snapshot { root_ids, nodes }
}

/// Verde caps a search at this many nodes before flagging the result truncated.
pub const MAX_SEARCH_RESULTS: usize = 500;

/// The lowercase form of a string, as `str::to_lowercase` maps it.
pub uninterp spec fn lowercase(s: Seq<char>) -> Seq<char>;

/// `str::to_lowercase`: each character replaced by its Unicode lowercase
/// mapping. The result is named by `lowercase`, not stated.
#[verifier::external_body]
fn to_lower(s: &str) -> (r: String)
    ensures
        r@ == lowercase(s@),
{
    s.to_lowercase()
}

/// The Unicode `White_Space` characters, which `char::is_whitespace` accepts.
pub open spec fn spec_is_white_space(c: char) -> bool {
    let n = c as u32;
    ||| 0x09 <= n <= 0x0d
    ||| n == 0x20
    ||| n == 0x85
    ||| n == 0xa0
    ||| n == 0x1680
    ||| 0x2000 <= n <= 0x200a
    ||| n == 0x2028
    ||| n == 0x2029
    ||| n == 0x202f
    ||| n == 0x205f
    ||| n == 0x3000
}

/// Whether `c` is white space.
pub fn is_white_space(c: char) -> (r: bool)
    ensures
        r == spec_is_white_space(c),
{
    let n = c as u32;
    (0x09 <= n && n <= 0x0d) || n == 0x20 || n == 0x85 || n == 0xa0 || n == 0x1680 || (0x2000 <= n && n
        <= 0x200a) || n == 0x2028 || n == 0x2029 || n == 0x202f || n == 0x205f || n == 0x3000
}

/// A character that separates search tokens.
pub open spec fn is_separator(c: char) -> bool {
    spec_is_white_space(c) || c == '.'
}

/// The finished tokens of `q` and the token still being read.
pub open spec fn split_acc(q: Seq<char>) -> (Seq<Seq<char>>, Seq<char>)
    decreases q.len(),
{
    if q.len() == 0 {
        (Seq::empty(), Seq::empty())
    } else {
        let (done, cur) = split_acc(q.drop_last());
        if is_separator(q.last()) {
            (
                if cur.len() > 0 {
                    done.push(cur)
                } else {
                    done
                },
                Seq::empty(),
            )
        } else {
            (done, cur.push(q.last()))
        }
    }
}

/// The non-empty pieces of `q` between separators, in order.
pub open spec fn split_tokens(q: Seq<char>) -> Seq<Seq<char>> {
    let (done, cur) = split_acc(q);
    if cur.len() > 0 {
        done.push(cur)
    } else {
        done
    }
}

/// Whether `needle` occurs in `hay`.
pub open spec fn has_infix(hay: Seq<char>, needle: Seq<char>) -> bool {
    exists|i: int| 0 <= i <= hay.len() - needle.len() && #[trigger] hay.subrange(i, i + needle.len()) == needle
}

/// The nodes from `start` up to the root, at most `fuel` of them, nearest
/// first.
pub open spec fn up_keys(s: Seq<NodeView>, start: Option<u64>, fuel: nat) -> Seq<u64>
    decreases fuel,
{
    if fuel == 0 {
        Seq::empty()
    } else {
        match start {
            None => Seq::empty(),
            Some(x) => if has_key(s, x) {
                seq![x] + up_keys(s, node_of(s, x).parent, (fuel - 1) as nat)
            } else {
                Seq::empty()
            },
        }
    }
}

/// The chain from the root down to the node with `key`.
pub open spec fn down_chain(s: Seq<NodeView>, key: u64) -> Seq<u64> {
    let up = up_keys(s, Some(key), s.len());
    Seq::new(up.len(), |j: int| up[up.len() - 1 - j])
}

/// The parts joined with `.` between them.
pub open spec fn join_dot(parts: Seq<Seq<char>>) -> Seq<char>
    decreases parts.len(),
{
    if parts.len() == 0 {
        Seq::empty()
    } else if parts.len() == 1 {
        parts[0]
    } else {
        join_dot(parts.drop_last()) + seq!['.'] + parts.last()
    }
}

/// The lowercased `a.b.c` path of the node with `key`, services first.
pub open spec fn lower_path_of(s: Seq<NodeView>, key: u64) -> Seq<char> {
    join_dot(down_chain(s, key).map_values(|x: u64| lowercase(node_of(s, x).name)))
}

/// Whether every token appears in the node's path or its class name.
pub open spec fn node_matches(s: Seq<NodeView>, key: u64, tokens: Seq<Seq<char>>) -> bool {
    forall|i: int|
        0 <= i < tokens.len() ==> has_infix(lower_path_of(s, key), #[trigger] tokens[i]) || has_infix(
            lowercase(node_of(s, key).class),
            tokens[i],
        )
}

/// A search in progress: the nodes found, their ids, whether it was cut
/// short, and whether it stopped.
pub struct SearchState {
    pub nodes: Seq<NodeV>,
    pub included: Seq<Seq<char>>,
    pub truncated: bool,
    pub stopped: bool,
}

/// Add the nodes of `chain`, ancestors first, skipping those already found;
/// stop, flagging truncation, once the result is full.
pub open spec fn include_chain(s: Seq<NodeView>, st: SearchState, chain: Seq<u64>) -> SearchState
    decreases chain.len(),
{
    if chain.len() == 0 {
        st
    } else {
        let before = include_chain(s, st, chain.drop_last());
        let id = node_of(s, chain.last()).id;
        if before.stopped || before.included.contains(id) {
            before
        } else if before.nodes.len() >= MAX_SEARCH_RESULTS {
            SearchState { truncated: true, stopped: true, ..before }
        } else {
            SearchState {
                nodes: before.nodes.push(shallow_view(s, chain.last())),
                included: before.included.push(id),
                ..before
            }
        }
    }
}

/// Visit `order`, grafting each matching node with its ancestors.
pub open spec fn search_over(s: Seq<NodeView>, tokens: Seq<Seq<char>>, order: Seq<u64>) -> SearchState
    decreases order.len(),
{
    if order.len() == 0 {
        SearchState { nodes: Seq::empty(), included: Seq::empty(), truncated: false, stopped: false }
    } else {
        let before = search_over(s, tokens, order.drop_last());
        if before.stopped || !node_matches(s, order.last(), tokens) {
            before
        } else {
            include_chain(s, before, down_chain(s, order.last()))
        }
    }
}

/// The characters of `s`.
pub open spec fn char_lists(v: Seq<Vec<char>>) -> Seq<Seq<char>> {
    v.map_values(|x: Vec<char>| x@)
}

/// The search tokens of a query: lowercased, split at white space and `.`.
fn query_tokens(query: &str) -> (r: Vec<Vec<char>>)
    ensures
        char_lists(r@) == split_tokens(lowercase(query@)),
{
    let lower = to_lower(query);
    let q = chars_of(lower.as_str());
    let mut done: Vec<Vec<char>> = Vec::new();
    let mut cur: Vec<char> = Vec::new();
    let mut i: usize = 0;
    assert(q@.take(0) =~= Seq::<char>::empty());
    while i < q.len()
        invariant
            i <= q@.len(),
            q@ == lowercase(query@),
            (char_lists(done@), cur@) == split_acc(q@.take(i as int)),
        decreases q@.len() - i,
    {
        let c = q[i];
        assert(q@.take(i + 1).drop_last() =~= q@.take(i as int));
        assert(q@.take(i + 1).last() == c);
        if is_white_space(c) || c == '.' {
            if cur.len() > 0 {
                let ghost before = done@;
                let piece = cur;
                done.push(piece);
                assert(char_lists(done@) =~= char_lists(before).push(piece@));
                cur = Vec::new();
            } else {
                cur = Vec::new();
            }
            assert(cur@ =~= Seq::<char>::empty());
        } else {
            cur.push(c);
        }
        i = i + 1;
    }
    assert(q@.take(q@.len() as int) =~= q@);
    if cur.len() > 0 {
        let ghost before = done@;
        let piece = cur;
        done.push(piece);
        assert(char_lists(done@) =~= char_lists(before).push(piece@));
    }
    done
}

/// Whether `needle` occurs in `hay`.
fn contains_chars(hay: &Vec<char>, needle: &Vec<char>) -> (r: bool)
    ensures
        r == has_infix(hay@, needle@),
{
    if needle.len() == 0 {
        assert(hay@.subrange(0, 0 + needle@.len() as int) =~= needle@);
        return true;
    }
    let n = hay.len();
    let mut i: usize = 0;
    while i <= n && needle.len() <= n - i
        invariant
            n == hay@.len(),
            needle@.len() > 0,
            i <= hay@.len() + 1,
            forall|j: int| 0 <= j < i ==> #[trigger] hay@.subrange(j, j + needle@.len()) != needle@,
        decreases hay@.len() + 1 - i,
    {
        let mut k: usize = 0;
        let mut same = true;
        while k < needle.len()
            invariant
                n == hay@.len(),
                i <= n,
                needle@.len() <= n - i,
                k <= needle@.len(),
                same == forall|m: int| 0 <= m < k ==> hay@[i + m] == needle@[m],
            decreases needle@.len() - k,
        {
            if hay[i + k] != needle[k] {
                same = false;
            }
            k = k + 1;
        }
        if same {
            assert(hay@.subrange(i as int, i + needle@.len()) =~= needle@);
            return true;
        }
        proof {
            let m = choose|m: int| 0 <= m < needle@.len() && hay@[i + m] != needle@[m];
            assert(hay@.subrange(i as int, i + needle@.len())[m] != needle@[m]);
        }
        i = i + 1;
    }
    false
}

/// The nodes from `key` up to the root, nearest first.
fn up_keys_of(dom: &SessionDom, key: u64) -> (r: Vec<u64>)
    ensures
        r@ == up_keys(dom.nodes(), Some(key), dom.nodes().len()),
{
    let ghost s = dom.nodes();
    let mut out: Vec<u64> = Vec::new();
    let mut cur: Option<u64> = Some(key);
    let mut fuel = dom.len();
    while fuel > 0 && cur.is_some()
        invariant
            s == dom.nodes(),
            out@ + up_keys(s, cur, fuel as nat) == up_keys(s, Some(key), s.len()),
        decreases fuel,
    {
        match cur {
            None => {},
            Some(x) => match dom.node(x) {
                None => {
                    fuel = 0;
                },
                Some(n) => {
                    let ghost before = out@;
                    out.push(x);
                    assert(out@ + up_keys(s, n.parent, (fuel - 1) as nat) =~= before + up_keys(s, cur, fuel as nat));
                    cur = n.parent;
                    fuel = fuel - 1;
                },
            },
        }
    }
    assert(out@ =~= up_keys(s, Some(key), s.len()));
    out
}

/// Append `part` to `out`.
fn push_all(out: &mut Vec<char>, part: &Vec<char>)
    ensures
        final(out)@ == old(out)@ + part@,
{
    let mut i: usize = 0;
    while i < part.len()
        invariant
            i <= part@.len(),
            out@ == old(out)@ + part@.take(i as int),
        decreases part@.len() - i,
    {
        out.push(part[i]);
        assert(part@.take(i + 1) =~= part@.take(i as int).push(part@[i as int]));
        i = i + 1;
    }
    assert(part@.take(part@.len() as int) =~= part@);
}

/// The lowercased `a.b.c` path of the node with `key`, services first.
fn lower_path(dom: &SessionDom, key: u64) -> (r: Vec<char>)
    ensures
        r@ == lower_path_of(dom.nodes(), key),
{
    let ghost s = dom.nodes();
    let up = up_keys_of(dom, key);
    let ghost chain = down_chain(s, key);
    let ghost parts = chain.map_values(|x: u64| lowercase(node_of(s, x).name));
    let mut out: Vec<char> = Vec::new();
    let mut j: usize = 0;
    assert(parts.take(0) =~= Seq::<Seq<char>>::empty());
    while j < up.len()
        invariant
            s == dom.nodes(),
            up@ == up_keys(s, Some(key), s.len()),
            chain == down_chain(s, key),
            parts == chain.map_values(|x: u64| lowercase(node_of(s, x).name)),
            j <= up@.len(),
            out@ == join_dot(parts.take(j as int)),
        decreases up@.len() - j,
    {
        let x = up[up.len() - 1 - j];
        assert(chain[j as int] == x);
        let name = match dom.node(x) {
            Some(n) => to_lower(n.name.as_str()),
            None => to_lower(""),
        };
        proof {
            lemma_up_keys_present(s, Some(key), s.len());
            assert(has_key(s, up@[up@.len() - 1 - j]));
        }
        let part = chars_of(name.as_str());
        assert(part@ == parts[j as int]);
        if j > 0 {
            out.push('.');
        }
        push_all(&mut out, &part);
        proof {
            assert(parts.take(j + 1).drop_last() =~= parts.take(j as int));
            assert(parts.take(j + 1).last() == part@);
            if j == 0 {
                assert(out@ =~= join_dot(parts.take(j + 1)));
            } else {
                assert(out@ =~= join_dot(parts.take(j + 1)));
            }
        }
        j = j + 1;
    }
    assert(parts.take(up@.len() as int) =~= parts);
    out
}

/// Every node the upward walk lists is mirrored.
proof fn lemma_up_keys_present(s: Seq<NodeView>, start: Option<u64>, fuel: nat)
    ensures
        forall|j: int| 0 <= j < up_keys(s, start, fuel).len() ==> has_key(s, #[trigger] up_keys(s, start, fuel)[j]),
    decreases fuel,
{
    if fuel > 0 {
        if let Some(x) = start {
            if has_key(s, x) {
                lemma_up_keys_present(s, node_of(s, x).parent, (fuel - 1) as nat);
                let rest = up_keys(s, node_of(s, x).parent, (fuel - 1) as nat);
                assert forall|j: int| 0 <= j < up_keys(s, start, fuel).len() implies has_key(
                    s,
                    #[trigger] up_keys(s, start, fuel)[j],
                ) by {
                    if j > 0 {
                        assert(up_keys(s, start, fuel)[j] == rest[j - 1]);
                    }
                }
            }
        }
    }
}

/// Whether every token appears in the node's path or its class name.
fn matches(dom: &SessionDom, key: u64, tokens: &Vec<Vec<char>>) -> (r: bool)
    requires
        has_key(dom.nodes(), key),
    ensures
        r == node_matches(dom.nodes(), key, char_lists(tokens@)),
{
    let ghost s = dom.nodes();
    let node = match dom.node(key) {
        Some(n) => n,
        None => {
            return false;
        },
    };
    let path = lower_path(dom, key);
    let class_lower = to_lower(node.class.as_str());
    let class = chars_of(class_lower.as_str());
    let mut i: usize = 0;
    while i < tokens.len()
        invariant
            s == dom.nodes(),
            path@ == lower_path_of(s, key),
            class@ == lowercase(node_of(s, key).class),
            i <= tokens@.len(),
            forall|j: int|
                0 <= j < i ==> has_infix(path@, #[trigger] char_lists(tokens@)[j]) || has_infix(
                    class@,
                    char_lists(tokens@)[j],
                ),
        decreases tokens@.len() - i,
    {
        let token = &tokens[i];
        assert(char_lists(tokens@)[i as int] == token@);
        if !contains_chars(&path, token) && !contains_chars(&class, token) {
            return false;
        }
        i = i + 1;
    }
    true
}

/// Add `key` and its ancestors (up to the root) as shallow nodes, skipping
/// those already found; `false` once the result would exceed the cap.
fn include_with_ancestors(
    dom: &SessionDom,
    key: u64,
    nodes: &mut Vec<Node>,
    included: &mut Vec<String>,
    truncated: &mut bool,
) -> (r: bool)
    requires
        dom.wf(),
    ensures
        ({
            let after = include_chain(
                dom.nodes(),
                SearchState {
                    nodes: nodes_view(old(nodes)@),
                    included: texts(old(included)@),
                    truncated: *old(truncated),
                    stopped: false,
                },
                down_chain(dom.nodes(), key),
            );
            &&& nodes_view(final(nodes)@) == after.nodes
            &&& texts(final(included)@) == after.included
            &&& *final(truncated) == after.truncated
            &&& r == !after.stopped
        }),
{
    let ghost s = dom.nodes();
    let ghost st0 = SearchState {
        nodes: nodes_view(nodes@),
        included: texts(included@),
        truncated: *truncated,
        stopped: false,
    };
    let up = up_keys_of(dom, key);
    let ghost chain = down_chain(s, key);
    proof {
        lemma_up_keys_present(s, Some(key), s.len());
    }
    let mut j: usize = 0;
    assert(chain.take(0) =~= Seq::<u64>::empty());
    while j < up.len()
        invariant
            s == dom.nodes(),
            dom.wf(),
            up@ == up_keys(s, Some(key), s.len()),
            chain == down_chain(s, key),
            st0 == (SearchState {
                nodes: nodes_view(old(nodes)@),
                included: texts(old(included)@),
                truncated: *old(truncated),
                stopped: false,
            }),
            forall|q: int| 0 <= q < up@.len() ==> has_key(s, #[trigger] up@[q]),
            j <= up@.len(),
            ({
                let now = include_chain(s, st0, chain.take(j as int));
                &&& !now.stopped
                &&& nodes_view(nodes@) == now.nodes
                &&& texts(included@) == now.included
                &&& *truncated == now.truncated
            }),
        decreases up@.len() - j,
    {
        let x = up[up.len() - 1 - j];
        assert(chain[j as int] == x);
        assert(has_key(s, up@[up@.len() - 1 - j]));
        assert(chain.take(j + 1).drop_last() =~= chain.take(j as int));
        assert(chain.take(j + 1).last() == x);
        let ghost before_nodes = nodes@;
        let ghost before_ids = included@;
        match dom.node(x) {
            Some(n) => {
                if !contains_text(included, &n.id) {
                    if nodes.len() >= MAX_SEARCH_RESULTS {
                        *truncated = true;
                        proof {
                            let now = include_chain(s, st0, chain.take(j as int));
                            assert(n.id@ == node_of(s, x).id);
                            assert(!now.included.contains(node_of(s, x).id));
                            assert(now.nodes.len() >= MAX_SEARCH_RESULTS);
                            assert(include_chain(s, st0, chain.take(j + 1)).stopped);
                            lemma_include_stays_stopped(s, st0, chain.take(j + 1), chain);
                            let after = include_chain(s, st0, chain);
                            assert(after.nodes == nodes_view(nodes@));
                            assert(after.included == texts(included@));
                            assert(after.truncated);
                            assert(after.stopped);
                        }
                        return false;
                    }
                    match shallow_by_key(dom, x) {
                        Some(node) => {
                            nodes.push(node);
                            included.push(n.id.clone());
                            assert(nodes_view(nodes@) =~= nodes_view(before_nodes).push(shallow_view(s, x)));
                            assert(texts(included@) =~= texts(before_ids).push(node_of(s, x).id));
                        },
                        None => {},
                    }
                }
            },
            None => {},
        }
        j = j + 1;
    }
    assert(chain.take(up@.len() as int) =~= chain);
    true
}

/// Search the mirror for nodes matching every whitespace/`.`-separated token
/// of `query`: the matches, breadth first, each grafted with its ancestors,
/// and whether the result was cut short.
pub fn search(dom: &SessionDom, query: &str) -> (r: (Vec<Node>, bool))
    requires
        dom.wf(),
    ensures
        ({
            let tokens = split_tokens(lowercase(query@));
            let found = search_over(
                dom.nodes(),
                tokens,
                bfs(dom.nodes(), child_keys(dom.nodes(), None), dom.nodes().len()),
            );
            &&& tokens.len() == 0 ==> r.0@.len() == 0 && !r.1
            &&& tokens.len() > 0 ==> nodes_view(r.0@) == found.nodes && r.1 == found.truncated
            &&& (tokens.len() > 0 && !r.1) ==> forall|m: u64|
                #[trigger] has_key(dom.nodes(), m) && (forall|i: int|
                    0 <= i < tokens.len() ==> has_infix(lowercase(node_of(dom.nodes(), m).class), #[trigger] tokens[i]))
                    ==> exists|i: int| 0 <= i < r.0@.len() && nodes_view(r.0@)[i].id == node_of(dom.nodes(), m).id
        }),
{
    let ghost s = dom.nodes();
    let tokens = query_tokens(query);
    let mut nodes: Vec<Node> = Vec::new();
    if tokens.len() == 0 {
        return (nodes, false);
    }
    let mut included: Vec<String> = Vec::new();
    let mut truncated = false;
    let ghost toks = char_lists(tokens@);
    let roots = dom.children(None);
    proof {
        lemma_children_present(s, None);
    }
    let mut queue = dom.children(None);
    let mut fuel = dom.len();
    let ghost order = bfs(s, roots@, s.len());
    let ghost mut visited: Seq<u64> = Seq::empty();
    assert(nodes_view(nodes@) =~= Seq::<NodeV>::empty());
    assert(texts(included@) =~= Seq::<Seq<char>>::empty());
    while fuel > 0 && queue.len() > 0
        invariant
            s == dom.nodes(),
            dom.wf(),
            toks == char_lists(tokens@),
            toks == split_tokens(lowercase(query@)),
            tokens@.len() > 0,
            order == bfs(s, child_keys(s, None), s.len()),
            forall|j: int| 0 <= j < queue@.len() ==> has_key(s, #[trigger] queue@[j]),
            visited + bfs(s, queue@, fuel as nat) == order,
            ({
                let now = search_over(s, toks, visited);
                &&& !now.stopped
                &&& nodes_view(nodes@) == now.nodes
                &&& texts(included@) == now.included
                &&& truncated == now.truncated
            }),
        decreases fuel,
    {
        let ghost q = queue@;
        let k = queue.remove(0);
        assert(has_key(s, q[0]));
        let mut more = dom.children(Some(k));
        proof {
            lemma_children_present(s, Some(k));
        }
        queue.append(&mut more);
        proof {
            assert(queue@ =~= q.drop_first() + child_keys(s, Some(k)));
            assert(visited.push(k) + bfs(s, queue@, (fuel - 1) as nat) =~= visited + bfs(s, q, fuel as nat));
            assert(visited.push(k).drop_last() =~= visited);
        }
        fuel = fuel - 1;
        let ghost st_before = search_over(s, toks, visited);
        assert(st_before == SearchState {
            nodes: nodes_view(nodes@),
            included: texts(included@),
            truncated: truncated,
            stopped: false,
        });
        if matches(dom, k, &tokens) {
            let go_on = include_with_ancestors(dom, k, &mut nodes, &mut included, &mut truncated);
            proof {
                let grown = visited.push(k);
                assert(grown.drop_last() =~= visited);
                assert(search_over(s, toks, grown) == include_chain(s, st_before, down_chain(s, k)));
                visited = grown;
            }
            if !go_on {
                proof {
                    assert(order.take(visited.len() as int) =~= visited);
                    lemma_search_stays_stopped(s, toks, visited, order);
                    crate::verde::search_results::lemma_search_finds_every_class_match(s, dom.next_key(), toks);
                }
                return (nodes, truncated);
            }
        } else {
            proof {
                let grown = visited.push(k);
                assert(grown.drop_last() =~= visited);
                assert(search_over(s, toks, grown) == st_before);
                visited = grown;
            }
        }
    }
    assert(bfs(s, queue@, fuel as nat) =~= Seq::<u64>::empty());
    assert(visited =~= order);
    proof {
        crate::verde::search_results::lemma_search_finds_every_class_match(s, dom.next_key(), toks);
    }
    (nodes, truncated)
}

/// Once grafting stops, the rest of the chain changes nothing.
proof fn lemma_include_stays_stopped(s: Seq<NodeView>, st: SearchState, prefix: Seq<u64>, chain: Seq<u64>)
    requires
        include_chain(s, st, prefix).stopped,
        prefix.len() <= chain.len(),
        chain.take(prefix.len() as int) == prefix,
    ensures
        include_chain(s, st, chain) == include_chain(s, st, prefix),
    decreases chain.len() - prefix.len(),
{
    if prefix.len() < chain.len() {
        let longer = chain.take((prefix.len() + 1) as int);
        assert(longer.drop_last() =~= prefix);
        assert(include_chain(s, st, longer) == include_chain(s, st, prefix));
        assert(chain.take(longer.len() as int) =~= longer);
        lemma_include_stays_stopped(s, st, longer, chain);
    } else {
        assert(chain =~= prefix);
    }
}

/// Once a search stops, the rest of the order changes nothing.
proof fn lemma_search_stays_stopped(s: Seq<NodeView>, tokens: Seq<Seq<char>>, prefix: Seq<u64>, order: Seq<u64>)
    requires
        search_over(s, tokens, prefix).stopped,
        prefix.len() <= order.len(),
        order.take(prefix.len() as int) == prefix,
    ensures
        search_over(s, tokens, order) == search_over(s, tokens, prefix),
    decreases order.len() - prefix.len(),
{
    if prefix.len() < order.len() {
        let longer = order.take((prefix.len() + 1) as int);
        assert(longer.drop_last() =~= prefix);
        assert(search_over(s, tokens, longer) == search_over(s, tokens, prefix));
        assert(order.take(longer.len() as int) =~= longer);
        lemma_search_stays_stopped(s, tokens, longer, order);
    } else {
        assert(order =~= prefix);
    }
}

/// Grafting never grows a result past the cap.
proof fn lemma_include_capped(s: Seq<NodeView>, st: SearchState, chain: Seq<u64>)
    requires
        st.nodes.len() <= MAX_SEARCH_RESULTS,
    ensures
        include_chain(s, st, chain).nodes.len() <= MAX_SEARCH_RESULTS,
    decreases chain.len(),
{
    if chain.len() > 0 {
        lemma_include_capped(s, st, chain.drop_last());
    }
}

/// A search never returns more than `MAX_SEARCH_RESULTS` nodes.
pub proof fn lemma_search_capped(s: Seq<NodeView>, tokens: Seq<Seq<char>>, order: Seq<u64>)
    ensures
        search_over(s, tokens, order).nodes.len() <= MAX_SEARCH_RESULTS,
    decreases order.len(),
{
    if order.len() > 0 {
        lemma_search_capped(s, tokens, order.drop_last());
        let before = search_over(s, tokens, order.drop_last());
        lemma_include_capped(s, before, down_chain(s, order.last()));
    }
}

} // verus!
