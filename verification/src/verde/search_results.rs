//! What a search of the mirror returns: each node once, parents before their
//! children, only matches and their ancestors, every match unless the result
//! was cut short, and a cut-short result exactly full.

use vstd::prelude::*;

use crate::dom::{has_key, in_subtree, is_anc, node_of, nodes_wf, parent_id_of, up, NodeView};
use crate::dom::{bfs, children_of};
use crate::tree_walk::{lemma_chain_short, lemma_walk_covers_all};
use crate::verde::explorer::NodeV;
use crate::verde::serialize::{
    has_infix, lowercase,
    down_chain, include_chain, node_matches, search_over, shallow_view, up_keys, SearchState, MAX_SEARCH_RESULTS,
};

verus! {

/// A consistent search result: each node listed once, under the id recorded
/// for it, never past the cap, and cut short exactly when it stopped, then
/// full.
pub open spec fn result_sound(st: SearchState) -> bool {
    &&& st.nodes.len() == st.included.len()
    &&& forall|i: int| 0 <= i < st.nodes.len() ==> #[trigger] st.nodes[i].id == st.included[i]
    &&& st.included.no_duplicates()
    &&& st.nodes.len() <= MAX_SEARCH_RESULTS
    &&& st.truncated == st.stopped
    &&& st.truncated ==> st.nodes.len() == MAX_SEARCH_RESULTS
}

/// Grafting a chain keeps a result consistent, only appends to it, adds only
/// nodes of the chain, and, unless it stops, leaves every node of the chain
/// listed.
proof fn lemma_include_sound(s: Seq<NodeView>, st: SearchState, chain: Seq<u64>)
    requires
        result_sound(st),
    ensures
        ({
            let r = include_chain(s, st, chain);
            &&& result_sound(r)
            &&& st.nodes.len() <= r.nodes.len()
            &&& r.nodes.take(st.nodes.len() as int) == st.nodes
            &&& r.included.take(st.included.len() as int) == st.included
            &&& st.stopped ==> r == st
            &&& forall|i: int|
                st.nodes.len() <= i < r.nodes.len() ==> exists|j: int|
                    0 <= j < chain.len() && #[trigger] r.nodes[i] == shallow_view(s, chain[j])
            &&& !r.stopped ==> forall|j: int|
                0 <= j < chain.len() ==> r.included.contains(node_of(s, #[trigger] chain[j]).id)
        }),
    decreases chain.len(),
{
    if chain.len() > 0 {
        let init = chain.drop_last();
        lemma_include_sound(s, st, init);
        let before = include_chain(s, st, init);
        let r = include_chain(s, st, chain);
        let x = chain.last();
        let id = node_of(s, x).id;
        assert forall|j: int| 0 <= j < init.len() implies chain[j] == init[j] by {}
        if before.stopped || before.included.contains(id) {
            assert(r == before);
            if !r.stopped {
                assert forall|j: int| 0 <= j < chain.len() implies r.included.contains(
                    node_of(s, #[trigger] chain[j]).id,
                ) by {
                    if j < init.len() {
                        assert(init[j] == chain[j]);
                    }
                }
            }
            assert forall|i: int| st.nodes.len() <= i < r.nodes.len() implies exists|j: int|
                0 <= j < chain.len() && #[trigger] r.nodes[i] == shallow_view(s, chain[j]) by {
                let j = choose|j: int| 0 <= j < init.len() && #[trigger] before.nodes[i] == shallow_view(s, init[j]);
                assert(chain[j] == init[j]);
            }
        } else if before.nodes.len() >= MAX_SEARCH_RESULTS {
            assert(r.nodes == before.nodes);
            assert forall|i: int| st.nodes.len() <= i < r.nodes.len() implies exists|j: int|
                0 <= j < chain.len() && #[trigger] r.nodes[i] == shallow_view(s, chain[j]) by {
                let j = choose|j: int| 0 <= j < init.len() && #[trigger] before.nodes[i] == shallow_view(s, init[j]);
                assert(chain[j] == init[j]);
            }
        } else {
            assert(r.nodes == before.nodes.push(shallow_view(s, x)));
            assert(r.included == before.included.push(id));
            assert(r.nodes.take(st.nodes.len() as int) =~= st.nodes) by {
                assert(r.nodes.take(st.nodes.len() as int) =~= before.nodes.take(st.nodes.len() as int));
            }
            assert(r.included.take(st.included.len() as int) =~= st.included) by {
                assert(r.included.take(st.included.len() as int) =~= before.included.take(
                    st.included.len() as int,
                ));
            }
            assert forall|a: int, b: int|
                0 <= a < r.included.len() && 0 <= b < r.included.len() && a != b implies r.included[a]
                != r.included[b] by {
                if a == before.included.len() {
                    assert(before.included.contains(before.included[b]));
                } else if b == before.included.len() {
                    assert(before.included.contains(before.included[a]));
                }
            }
            assert forall|i: int| 0 <= i < r.nodes.len() implies #[trigger] r.nodes[i].id == r.included[i] by {
                if i == before.nodes.len() {
                    assert(shallow_view(s, x).id == id);
                }
            }
            assert forall|i: int| st.nodes.len() <= i < r.nodes.len() implies exists|j: int|
                0 <= j < chain.len() && #[trigger] r.nodes[i] == shallow_view(s, chain[j]) by {
                if i < before.nodes.len() {
                    let j = choose|j: int|
                        0 <= j < init.len() && #[trigger] before.nodes[i] == shallow_view(s, init[j]);
                    assert(chain[j] == init[j]);
                } else {
                    assert(r.nodes[i] == shallow_view(s, chain[chain.len() - 1]));
                }
            }
            assert forall|j: int| 0 <= j < chain.len() implies r.included.contains(
                node_of(s, #[trigger] chain[j]).id,
            ) by {
                if j < init.len() {
                    assert(init[j] == chain[j]);
                    let k = choose|k: int| 0 <= k < before.included.len() && before.included[k] == node_of(s, init[j]).id;
                    assert(r.included[k] == before.included[k]);
                } else {
                    assert(r.included[r.included.len() - 1] == id);
                }
            }
        }
    }
}


/// The walk up from `start`: each step is where the parent chain leads, each
/// node's parent is the next one, and a walk that reached the top ends at a
/// top-level node.
proof fn lemma_up_keys(s: Seq<NodeView>, next_key: u64, start: Option<u64>, fuel: nat)
    requires
        nodes_wf(s, next_key),
        start matches Some(x) ==> has_key(s, x),
    ensures
        ({
            let u = up_keys(s, start, fuel);
            &&& forall|j: int| 0 <= j < u.len() ==> up(s, start, j as nat) == Some(#[trigger] u[j]) && has_key(s, u[j])
            &&& forall|j: int| 0 <= j && j + 1 < u.len() ==> node_of(s, #[trigger] u[j]).parent == Some(u[j + 1])
            &&& (up(s, start, fuel) is None && u.len() > 0) ==> node_of(s, u[u.len() - 1]).parent is None
            &&& (start is Some && fuel > 0) ==> u.len() > 0 && u[0] == start->0
        }),
    decreases fuel,
{
    if fuel > 0 {
        if let Some(x) = start {
            let p = node_of(s, x).parent;
            crate::dom::lemma_key_pos(s, x);
            let i = crate::dom::key_pos(s, x)->0;
            assert(s[i].parent == p);
            lemma_up_keys(s, next_key, p, (fuel - 1) as nat);
            let u = up_keys(s, start, fuel);
            let rest = up_keys(s, p, (fuel - 1) as nat);
            assert(u == seq![x] + rest);
            assert forall|j: int| 0 <= j < u.len() implies up(s, start, j as nat) == Some(#[trigger] u[j])
                && has_key(s, u[j]) by {
                if j > 0 {
                    assert(u[j] == rest[j - 1]);
                    assert(up(s, start, j as nat) == up(s, p, (j - 1) as nat));
                }
            }
            assert forall|j: int| 0 <= j && j + 1 < u.len() implies node_of(s, #[trigger] u[j]).parent == Some(
                u[j + 1],
            ) by {
                if j == 0 {
                    assert(u[1] == rest[0]);
                    assert(up(s, p, 0) == Some(rest[0]));
                } else {
                    assert(u[j] == rest[j - 1]);
                    assert(u[j + 1] == rest[j]);
                }
            }
            if up(s, start, fuel) is None && u.len() > 0 {
                assert(up(s, start, fuel) == up(s, p, (fuel - 1) as nat));
                if rest.len() > 0 {
                    assert(u[u.len() - 1] == rest[rest.len() - 1]);
                } else {
                    if let Some(q) = p {
                        assert(fuel - 1 > 0) by {
                            if fuel - 1 == 0 {
                                assert(up(s, p, 0) == p);
                            }
                        }
                    }
                }
            }
        }
    }
}


/// The chain a match is grafted with: from a top-level node down to the match,
/// each node the match or an ancestor of it, each listed after its parent.
proof fn lemma_down_chain(s: Seq<NodeView>, next_key: u64, m: u64)
    requires
        nodes_wf(s, next_key),
        has_key(s, m),
    ensures
        ({
            let c = down_chain(s, m);
            &&& c.len() > 0
            &&& c[c.len() - 1] == m
            &&& forall|j: int| 0 <= j < c.len() ==> has_key(s, #[trigger] c[j]) && in_subtree(s, c[j], m)
            &&& forall|j: int| 0 < j < c.len() ==> parent_id_of(s, #[trigger] c[j]) == Some(node_of(s, c[j - 1]).id)
            &&& parent_id_of(s, c[0]) is None
        }),
{
    crate::dom::lemma_key_pos(s, m);
    let u = up_keys(s, Some(m), s.len());
    lemma_up_keys(s, next_key, Some(m), s.len());
    lemma_chain_short(s, next_key, m);
    let c = down_chain(s, m);
    let l = u.len();
    assert(c.len() == l);
    assert forall|j: int| 0 <= j < c.len() implies has_key(s, #[trigger] c[j]) && in_subtree(s, c[j], m) by {
        let k = l - 1 - j;
        assert(c[j] == u[k]);
        assert(up(s, Some(m), k as nat) == Some(u[k]));
        if k > 0 {
            assert(is_anc(s, u[k], m));
        }
    }
    assert forall|j: int| 0 < j < c.len() implies parent_id_of(s, #[trigger] c[j]) == Some(node_of(s, c[j - 1]).id) by {
        let k = l - 1 - j;
        assert(c[j] == u[k]);
        assert(c[j - 1] == u[k + 1]);
        assert(has_key(s, u[k + 1]));
    }
    assert(c[0] == u[l - 1]);
    assert(c[l - 1] == u[0]);
}


/// Every listed node with a parent comes after that parent.
pub open spec fn parents_first(st: SearchState) -> bool {
    forall|i: int|
        0 <= i < st.nodes.len() ==> (#[trigger] st.nodes[i].parent_id matches Some(p) ==> exists|j: int|
            0 <= j < i && st.included[j] == p)
}

/// Grafting a chain that runs from a top-level node down, parent before
/// child, keeps parents first.
proof fn lemma_include_parents(s: Seq<NodeView>, st: SearchState, chain: Seq<u64>)
    requires
        result_sound(st),
        parents_first(st),
        chain.len() > 0 ==> parent_id_of(s, chain[0]) is None,
        forall|j: int| 0 < j < chain.len() ==> parent_id_of(s, #[trigger] chain[j]) == Some(node_of(s, chain[j - 1]).id),
    ensures
        parents_first(include_chain(s, st, chain)),
    decreases chain.len(),
{
    if chain.len() > 0 {
        let init = chain.drop_last();
        assert forall|j: int| 0 < j < init.len() implies parent_id_of(s, #[trigger] init[j]) == Some(
            node_of(s, init[j - 1]).id,
        ) by {
            assert(init[j] == chain[j] && init[j - 1] == chain[j - 1]);
        }
        if init.len() > 0 {
            assert(init[0] == chain[0]);
        }
        lemma_include_parents(s, st, init);
        let before = include_chain(s, st, init);
        let r = include_chain(s, st, chain);
        let x = chain.last();
        let id = node_of(s, x).id;
        let last = chain.len() - 1;
        assert(result_sound(before) && (last > 0 && !before.stopped ==> before.included.contains(
            node_of(s, chain[last - 1]).id,
        ))) by {
            lemma_include_sound(s, st, init);
            if last > 0 {
                assert(init[last - 1] == chain[last - 1]);
            }
        }
        if !(before.stopped || before.included.contains(id)) && before.nodes.len() < MAX_SEARCH_RESULTS {
            assert(r.nodes == before.nodes.push(shallow_view(s, x)));
            assert(r.included == before.included.push(id));
            assert forall|i: int| 0 <= i < r.nodes.len() implies (#[trigger] r.nodes[i].parent_id matches Some(p)
                ==> exists|j: int| 0 <= j < i && r.included[j] == p) by {
                if i < before.nodes.len() {
                    assert(r.nodes[i] == before.nodes[i]);
                    if let Some(p) = r.nodes[i].parent_id {
                        let j = choose|j: int| 0 <= j < i && before.included[j] == p;
                        assert(r.included[j] == before.included[j]);
                    }
                } else {
                    assert(r.nodes[i].parent_id == parent_id_of(s, x));
                    if last > 0 {
                        let pid = node_of(s, chain[last - 1]).id;
                        let j = choose|j: int| 0 <= j < before.included.len() && before.included[j] == pid;
                        assert(r.included[j] == pid);
                    }
                }
            }
        } else {
            assert(r.nodes == before.nodes && r.included == before.included);
        }
    }
}


/// Whether the listed node `n` is a match of `order`, or an ancestor of one.
pub open spec fn from_a_match(s: Seq<NodeView>, tokens: Seq<Seq<char>>, order: Seq<u64>, n: NodeV) -> bool {
    exists|m: u64, x: u64|
        #![trigger order.contains(m), shallow_view(s, x)]
        order.contains(m) && node_matches(s, m, tokens) && has_key(s, x) && in_subtree(s, x, m) && n
            == shallow_view(s, x)
}

/// What searching over `order` gives, step by step: a consistent result with
/// parents first, made only of matches and their ancestors, which lists every
/// match met unless it stopped.
proof fn lemma_search_sound(s: Seq<NodeView>, next_key: u64, tokens: Seq<Seq<char>>, order: Seq<u64>)
    requires
        nodes_wf(s, next_key),
        forall|j: int| 0 <= j < order.len() ==> has_key(s, #[trigger] order[j]),
    ensures
        ({
            let r = search_over(s, tokens, order);
            &&& result_sound(r)
            &&& parents_first(r)
            &&& forall|i: int| 0 <= i < r.nodes.len() ==> from_a_match(s, tokens, order, #[trigger] r.nodes[i])
            &&& !r.stopped ==> forall|m: u64|
                #[trigger] order.contains(m) && node_matches(s, m, tokens) ==> r.included.contains(node_of(s, m).id)
        }),
    decreases order.len(),
{
    let r = search_over(s, tokens, order);
    if order.len() == 0 {
        assert(r.nodes.len() == 0);
        assert(r.included =~= Seq::<Seq<char>>::empty());
    } else {
        let init = order.drop_last();
        let m0 = order.last();
        assert forall|j: int| 0 <= j < init.len() implies has_key(s, #[trigger] init[j]) by {
            assert(init[j] == order[j]);
        }
        lemma_search_sound(s, next_key, tokens, init);
        let before = search_over(s, tokens, init);
        assert forall|m: u64| #[trigger] init.contains(m) implies order.contains(m) by {
            let j = choose|j: int| 0 <= j < init.len() && init[j] == m;
            assert(order[j] == m);
        }
        assert(order.contains(m0)) by {
            assert(order[order.len() - 1] == m0);
        }
        assert(has_key(s, m0)) by {
            assert(order[order.len() - 1] == m0);
        }
        if before.stopped || !node_matches(s, m0, tokens) {
            assert(r == before);
            assert forall|i: int| 0 <= i < r.nodes.len() implies from_a_match(s, tokens, order, #[trigger] r.nodes[i]) by {
                assert(from_a_match(s, tokens, init, before.nodes[i]));
                let (m, x) = choose|m: u64, x: u64|
                    #![trigger init.contains(m), shallow_view(s, x)]
                    init.contains(m) && node_matches(s, m, tokens) && has_key(s, x) && in_subtree(s, x, m)
                        && before.nodes[i] == shallow_view(s, x);
                assert(order.contains(m));
            }
            if !r.stopped {
                assert forall|m: u64| #[trigger] order.contains(m) && node_matches(s, m, tokens) implies r.included.contains(
                    node_of(s, m).id,
                ) by {
                    let j = choose|j: int| 0 <= j < order.len() && order[j] == m;
                    if j < init.len() {
                        assert(init[j] == m);
                        assert(init.contains(m));
                    }
                }
            }
        } else {
            let c = down_chain(s, m0);
            lemma_down_chain(s, next_key, m0);
            lemma_include_sound(s, before, c);
            lemma_include_parents(s, before, c);
            assert(r == include_chain(s, before, c));
            assert forall|i: int| 0 <= i < r.nodes.len() implies from_a_match(s, tokens, order, #[trigger] r.nodes[i]) by {
                if i < before.nodes.len() {
                    assert(r.nodes.take(before.nodes.len() as int)[i] == before.nodes[i]);
                    assert(from_a_match(s, tokens, init, before.nodes[i]));
                    let (m, x) = choose|m: u64, x: u64|
                        #![trigger init.contains(m), shallow_view(s, x)]
                        init.contains(m) && node_matches(s, m, tokens) && has_key(s, x) && in_subtree(s, x, m)
                            && before.nodes[i] == shallow_view(s, x);
                    assert(order.contains(m));
                } else {
                    let j = choose|j: int| 0 <= j < c.len() && #[trigger] r.nodes[i] == shallow_view(s, c[j]);
                    assert(has_key(s, c[j]) && in_subtree(s, c[j], m0));
                }
            }
            if !r.stopped {
                assert forall|m: u64| #[trigger] order.contains(m) && node_matches(s, m, tokens) implies r.included.contains(
                    node_of(s, m).id,
                ) by {
                    let j = choose|j: int| 0 <= j < order.len() && order[j] == m;
                    if j < init.len() {
                        assert(init[j] == m);
                        assert(init.contains(m));
                        let k = choose|k: int| 0 <= k < before.included.len() && before.included[k] == node_of(s, m).id;
                        assert(r.included.take(before.included.len() as int)[k] == before.included[k]);
                    } else {
                        assert(m == m0);
                        assert(c[c.len() - 1] == m0);
                    }
                }
            }
        }
    }
}


/// The order a search visits the mirror in: breadth first from the top level.
pub open spec fn search_order(s: Seq<NodeView>) -> Seq<u64> {
    bfs(s, children_of(s, None), s.len())
}

/// The result of searching the whole mirror for `tokens`, as `search` returns
/// it for a non-empty query.
pub open spec fn found(s: Seq<NodeView>, tokens: Seq<Seq<char>>) -> SearchState {
    search_over(s, tokens, search_order(s))
}

/// The search over the whole mirror, with the facts of `lemma_search_sound`
/// read in terms of mirrored nodes.
proof fn lemma_found(s: Seq<NodeView>, next_key: u64, tokens: Seq<Seq<char>>)
    requires
        nodes_wf(s, next_key),
    ensures
        result_sound(found(s, tokens)),
        parents_first(found(s, tokens)),
        forall|i: int| 0 <= i < found(s, tokens).nodes.len() ==> from_a_match(s, tokens, search_order(s), #[trigger] found(s, tokens).nodes[i]),
        !found(s, tokens).stopped ==> forall|m: u64|
            #[trigger] has_key(s, m) && node_matches(s, m, tokens) ==> found(s, tokens).included.contains(node_of(s, m).id),
{
    let order = search_order(s);
    lemma_walk_covers_all(s, next_key);
    assert forall|j: int| 0 <= j < order.len() implies has_key(s, #[trigger] order[j]) by {
        assert(order.contains(order[j]));
    }
    lemma_search_sound(s, next_key, tokens, order);
    let r = found(s, tokens);
    if !r.stopped {
        assert forall|m: u64| #[trigger] has_key(s, m) && node_matches(s, m, tokens) implies r.included.contains(
            node_of(s, m).id,
        ) by {
            assert(order.contains(m));
        }
    }
}

/// A search lists no node twice.
pub proof fn lemma_search_lists_each_node_once(s: Seq<NodeView>, next_key: u64, tokens: Seq<Seq<char>>)
    requires
        nodes_wf(s, next_key),
    ensures
        forall|i: int, j: int|
            0 <= i < found(s, tokens).nodes.len() && 0 <= j < found(s, tokens).nodes.len() && i != j
                ==> #[trigger] found(s, tokens).nodes[i].id != #[trigger] found(s, tokens).nodes[j].id,
{
    lemma_found(s, next_key, tokens);
}

/// A search lists every node after its parent.
pub proof fn lemma_search_lists_parents_first(s: Seq<NodeView>, next_key: u64, tokens: Seq<Seq<char>>)
    requires
        nodes_wf(s, next_key),
    ensures
        forall|i: int|
            0 <= i < found(s, tokens).nodes.len() ==> (#[trigger] found(s, tokens).nodes[i].parent_id matches Some(p)
                ==> exists|j: int| 0 <= j < i && found(s, tokens).nodes[j].id == p),
{
    lemma_found(s, next_key, tokens);
    let r = found(s, tokens);
    assert forall|i: int| 0 <= i < r.nodes.len() implies (#[trigger] r.nodes[i].parent_id matches Some(p) ==> exists|j: int|
        0 <= j < i && r.nodes[j].id == p) by {
        if let Some(p) = r.nodes[i].parent_id {
            let j = choose|j: int| 0 <= j < i && r.included[j] == p;
            assert(r.nodes[j].id == r.included[j]);
        }
    }
}

/// A search lists only matching nodes and their ancestors.
pub proof fn lemma_search_lists_only_matches_and_ancestors(s: Seq<NodeView>, next_key: u64, tokens: Seq<Seq<char>>)
    requires
        nodes_wf(s, next_key),
    ensures
        forall|i: int|
            0 <= i < found(s, tokens).nodes.len() ==> exists|m: u64, x: u64|
                #![trigger has_key(s, m), shallow_view(s, x)]
                has_key(s, m) && node_matches(s, m, tokens) && has_key(s, x) && in_subtree(s, x, m)
                    && #[trigger] found(s, tokens).nodes[i] == shallow_view(s, x),
{
    lemma_found(s, next_key, tokens);
    lemma_walk_covers_all(s, next_key);
    let r = found(s, tokens);
    let order = search_order(s);
    assert forall|i: int| 0 <= i < r.nodes.len() implies exists|m: u64, x: u64|
        #![trigger has_key(s, m), shallow_view(s, x)]
        has_key(s, m) && node_matches(s, m, tokens) && has_key(s, x) && in_subtree(s, x, m) && #[trigger] r.nodes[i]
            == shallow_view(s, x) by {
        assert(from_a_match(s, tokens, order, r.nodes[i]));
        let (m, x) = choose|m: u64, x: u64|
            #![trigger order.contains(m), shallow_view(s, x)]
            order.contains(m) && node_matches(s, m, tokens) && has_key(s, x) && in_subtree(s, x, m) && r.nodes[i]
                == shallow_view(s, x);
        assert(has_key(s, m));
    }
}

/// Unless a search was cut short, it lists every matching node.
pub proof fn lemma_search_lists_every_match(s: Seq<NodeView>, next_key: u64, tokens: Seq<Seq<char>>, m: u64)
    requires
        nodes_wf(s, next_key),
        has_key(s, m),
        node_matches(s, m, tokens),
        !found(s, tokens).truncated,
    ensures
        exists|i: int| 0 <= i < found(s, tokens).nodes.len() && #[trigger] found(s, tokens).nodes[i].id == node_of(s, m).id,
{
    lemma_found(s, next_key, tokens);
    let r = found(s, tokens);
    let i = choose|i: int| 0 <= i < r.included.len() && r.included[i] == node_of(s, m).id;
    assert(r.nodes[i].id == r.included[i]);
}

/// A search that was cut short lists exactly `MAX_SEARCH_RESULTS` nodes.
pub proof fn lemma_search_cut_short_is_full(s: Seq<NodeView>, next_key: u64, tokens: Seq<Seq<char>>)
    requires
        nodes_wf(s, next_key),
        found(s, tokens).truncated,
    ensures
        found(s, tokens).nodes.len() == MAX_SEARCH_RESULTS,
{
    lemma_found(s, next_key, tokens);
}


/// Unless a search was cut short, it lists every node whose lowercased class
/// name contains each token of the query.
pub proof fn lemma_search_finds_by_class(s: Seq<NodeView>, next_key: u64, tokens: Seq<Seq<char>>, m: u64)
    requires
        nodes_wf(s, next_key),
        has_key(s, m),
        forall|i: int| 0 <= i < tokens.len() ==> has_infix(lowercase(node_of(s, m).class), #[trigger] tokens[i]),
        !found(s, tokens).truncated,
    ensures
        exists|i: int| 0 <= i < found(s, tokens).nodes.len() && #[trigger] found(s, tokens).nodes[i].id == node_of(s, m).id,
{
    assert(node_matches(s, m, tokens));
    lemma_search_lists_every_match(s, next_key, tokens, m);
}


/// Every node whose lowercased class name contains each token is listed,
/// unless the search was cut short.
pub proof fn lemma_search_finds_every_class_match(s: Seq<NodeView>, next_key: u64, tokens: Seq<Seq<char>>)
    requires
        nodes_wf(s, next_key),
    ensures
        !found(s, tokens).truncated ==> forall|m: u64|
            #[trigger] has_key(s, m) && (forall|i: int|
                0 <= i < tokens.len() ==> has_infix(lowercase(node_of(s, m).class), #[trigger] tokens[i]))
                ==> exists|i: int| 0 <= i < found(s, tokens).nodes.len() && found(s, tokens).nodes[i].id == node_of(s, m).id,
{
    if !found(s, tokens).truncated {
        assert forall|m: u64|
            #[trigger] has_key(s, m) && (forall|i: int|
                0 <= i < tokens.len() ==> has_infix(lowercase(node_of(s, m).class), #[trigger] tokens[i]))
                implies exists|i: int| 0 <= i < found(s, tokens).nodes.len() && found(s, tokens).nodes[i].id == node_of(s, m).id by {
            lemma_search_finds_by_class(s, next_key, tokens, m);
        }
    }
}

} // verus!
