//! The breadth-first walk over a mirror: from the top level, one step per
//! mirrored node, it meets every node exactly once.

use vstd::prelude::*;

use crate::dom::{
    bfs, children_of, has_key, is_anc, key_pos, lemma_key_at, lemma_key_pos, lemma_no_cycles, lemma_up_add,
    lemma_up_root, lemma_up_step, nodes_wf, parent_of, rooted, up, NodeView,
};

verus! {

/// Which keys `children_of` lists: those of the nodes under `parent`; with
/// unique keys, each once.
proof fn lemma_children_members(s: Seq<NodeView>, parent: Option<u64>)
    ensures
        forall|k: u64|
            #![trigger children_of(s, parent).contains(k)]
            children_of(s, parent).contains(k) <==> exists|i: int|
                0 <= i < s.len() && s[i].key == k && s[i].parent == parent,
        (forall|i: int, j: int| 0 <= i < s.len() && 0 <= j < s.len() && i != j ==> s[i].key != s[j].key)
            ==> children_of(s, parent).no_duplicates(),
    decreases s.len(),
{
    if s.len() > 0 {
        let init = s.drop_last();
        lemma_children_members(init, parent);
        let c = children_of(s, parent);
        let ci = children_of(init, parent);
        assert forall|k: u64| c.contains(k) <==> exists|i: int|
            0 <= i < s.len() && s[i].key == k && s[i].parent == parent by {
            if c.contains(k) {
                if ci.contains(k) {
                    let i = choose|i: int| 0 <= i < init.len() && init[i].key == k && init[i].parent == parent;
                    assert(s[i] == init[i]);
                } else {
                    let j = choose|j: int| 0 <= j < c.len() && c[j] == k;
                    if j < ci.len() {
                        assert(c[j] == ci[j]);
                    }
                    assert(s[s.len() - 1].key == k && s[s.len() - 1].parent == parent);
                }
            }
            if exists|i: int| 0 <= i < s.len() && s[i].key == k && s[i].parent == parent {
                let i = choose|i: int| 0 <= i < s.len() && s[i].key == k && s[i].parent == parent;
                if i < init.len() {
                    assert(init[i] == s[i]);
                    assert(ci.contains(k));
                    let j = choose|j: int| 0 <= j < ci.len() && ci[j] == k;
                    if s.last().parent == parent {
                        assert(c[j] == ci[j]);
                    }
                    assert(c.contains(k));
                } else {
                    assert(c[c.len() - 1] == k);
                }
            }
        }
        if forall|i: int, j: int| 0 <= i < s.len() && 0 <= j < s.len() && i != j ==> s[i].key != s[j].key {
            assert(forall|i: int, j: int|
                0 <= i < init.len() && 0 <= j < init.len() && i != j ==> init[i].key != init[j].key) by {
                assert(forall|i: int| 0 <= i < init.len() ==> init[i] == s[i]);
            }
            if s.last().parent == parent {
                if ci.contains(s.last().key) {
                    let i = choose|i: int|
                        0 <= i < init.len() && init[i].key == s.last().key && init[i].parent == parent;
                    assert(s[i] == init[i]);
                    assert(false);
                }
                assert forall|a: int, b: int| 0 <= a < c.len() && 0 <= b < c.len() && a != b implies c[a]
                    != c[b] by {
                    if a < ci.len() && b < ci.len() {
                        assert(c[a] == ci[a] && c[b] == ci[b]);
                    } else if a < ci.len() {
                        assert(c[a] == ci[a]);
                        assert(ci.contains(c[a]));
                    } else {
                        assert(c[b] == ci[b]);
                        assert(ci.contains(c[b]));
                    }
                }
            }
        }
    }
}

/// A list of mirrored keys that repeats none is no longer than the mirror.
proof fn lemma_keys_fit(s: Seq<NodeView>, t: Seq<u64>)
    requires
        t.no_duplicates(),
        forall|i: int| 0 <= i < t.len() ==> has_key(s, #[trigger] t[i]),
    ensures
        t.len() <= s.len(),
{
    let keys = s.map_values(|n: NodeView| n.key);
    assert forall|y: u64| t.to_set().contains(y) implies keys.to_set().contains(y) by {
        let j = choose|j: int| 0 <= j < t.len() && t[j] == y;
        assert(has_key(s, t[j]));
        lemma_key_pos(s, y);
        let i = key_pos(s, y)->0;
        assert(keys[i] == y);
    }
    t.unique_seq_to_set();
    keys.lemma_cardinality_of_set();
    vstd::set_lib::lemma_len_subset(t.to_set(), keys.to_set());
}


/// Whether a node may be listed once `t.take(n)` is visited: it is a
/// top-level node, or its parent was visited.
pub open spec fn ready(s: Seq<NodeView>, t: Seq<u64>, n: int, x: u64) -> bool {
    match parent_of(s, x) {
        None => true,
        Some(p) => t.take(n).contains(p),
    }
}

/// A consistent moment of the walk: `t` lists the nodes met so far, the first
/// `n` visited and the rest queued. Nothing is listed twice, only mirrored
/// nodes are listed, each listed node's parent was visited, every node whose
/// parent was visited is listed, and every node not listed lies below a
/// queued one.
pub open spec fn walk_state(s: Seq<NodeView>, t: Seq<u64>, n: int) -> bool {
    &&& 0 <= n <= t.len()
    &&& t.no_duplicates()
    &&& forall|i: int| 0 <= i < t.len() ==> has_key(s, #[trigger] t[i])
    &&& forall|i: int| 0 <= i < t.len() ==> ready(s, t, n, #[trigger] t[i])
    &&& forall|x: u64| #[trigger] has_key(s, x) && ready(s, t, n, x) ==> t.contains(x)
    &&& forall|x: u64|
        #[trigger] has_key(s, x) && !t.contains(x) ==> exists|a: u64|
            #[trigger] t.skip(n).contains(a) && is_anc(s, a, x)
}

/// Following parents from a mirrored node reaches a top-level node.
proof fn lemma_top(s: Seq<NodeView>, next_key: u64, y: u64, f: nat)
    requires
        nodes_wf(s, next_key),
        has_key(s, y),
        up(s, Some(y), f) is None,
    ensures
        exists|m: nat, r: u64|
            #![trigger up(s, Some(y), m), parent_of(s, r)]
            up(s, Some(y), m) == Some(r) && has_key(s, r) && parent_of(s, r) is None,
    decreases f,
{
    match parent_of(s, y) {
        None => {
            assert(up(s, Some(y), 0) == Some(y));
        },
        Some(p) => {
            lemma_key_pos(s, y);
            let i = key_pos(s, y)->0;
            assert(s[i].parent == Some(p));
            assert(has_key(s, p));
            lemma_top(s, next_key, p, (f - 1) as nat);
            let (m, r) = choose|m: nat, r: u64|
                #![trigger up(s, Some(p), m), parent_of(s, r)]
                up(s, Some(p), m) == Some(r) && has_key(s, r) && parent_of(s, r) is None;
            assert(up(s, Some(y), m + 1) == up(s, Some(p), m));
        },
    }
}

/// The walk starts consistent: nothing visited, the top level queued.
proof fn lemma_walk_start(s: Seq<NodeView>, next_key: u64)
    requires
        nodes_wf(s, next_key),
    ensures
        walk_state(s, children_of(s, None), 0),
{
    let t = children_of(s, None);
    lemma_children_members(s, None);
    assert(t.take(0) =~= Seq::<u64>::empty());
    assert(t.skip(0) =~= t);
    assert forall|i: int| 0 <= i < t.len() implies has_key(s, #[trigger] t[i]) && ready(s, t, 0, t[i]) by {
        assert(t.contains(t[i]));
        let j = choose|j: int| 0 <= j < s.len() && s[j].key == t[i] && s[j].parent == None::<u64>;
        lemma_key_at(s, j);
    }
    assert forall|x: u64| #[trigger] has_key(s, x) && ready(s, t, 0, x) implies t.contains(x) by {
        lemma_key_pos(s, x);
        let j = key_pos(s, x)->0;
        lemma_key_at(s, j);
    }
    assert forall|x: u64| #[trigger] has_key(s, x) && !t.contains(x) implies exists|a: u64|
        #[trigger] t.skip(0).contains(a) && is_anc(s, a, x) by {
        lemma_key_pos(s, x);
        let j = key_pos(s, x)->0;
        lemma_key_at(s, j);
        assert(rooted(s, s[j].key));
        let f = choose|f: nat| #[trigger] up(s, Some(x), f) is None;
        lemma_top(s, next_key, x, f);
        let (m, r) = choose|m: nat, r: u64|
            #![trigger up(s, Some(x), m), parent_of(s, r)]
            up(s, Some(x), m) == Some(r) && has_key(s, r) && parent_of(s, r) is None;
        if m == 0 {
            assert(up(s, Some(x), 0) == Some(x));
            assert(t.contains(x));
        }
        lemma_key_pos(s, r);
        let k = key_pos(s, r)->0;
        lemma_key_at(s, k);
        assert(t.contains(r));
        assert(is_anc(s, r, x));
    }
}


/// One step keeps the walk consistent: visit the first queued node and queue
/// its children.
proof fn lemma_walk_step(s: Seq<NodeView>, next_key: u64, t: Seq<u64>, n: int)
    requires
        nodes_wf(s, next_key),
        walk_state(s, t, n),
        n < t.len(),
    ensures
        walk_state(s, t + children_of(s, Some(t[n])), n + 1),
{
    let q0 = t[n];
    let c = children_of(s, Some(q0));
    let t2 = t + c;
    lemma_children_members(s, Some(q0));
    assert(t2.take(n + 1) =~= t.take(n + 1));
    assert(t.take(n + 1) =~= t.take(n).push(q0));
    // The children are mirrored nodes under `q0`.
    assert forall|j: int| 0 <= j < c.len() implies has_key(s, #[trigger] c[j]) && parent_of(s, c[j]) == Some(q0) by {
        assert(c.contains(c[j]));
        let i = choose|i: int| 0 <= i < s.len() && s[i].key == c[j] && s[i].parent == Some(q0);
        lemma_key_at(s, i);
    }
    // None of them was listed yet: its parent `q0` would have been visited.
    assert forall|a: int, b: int| 0 <= a < t.len() && 0 <= b < c.len() implies t[a] != c[b] by {
        if t[a] == c[b] {
            assert(ready(s, t, n, t[a]));
            let j = choose|j: int| 0 <= j < t.take(n).len() && t.take(n)[j] == q0;
            assert(t[j] == t[n]);
        }
    }
    vstd::seq_lib::lemma_no_dup_in_concat(t, c);
    assert forall|i: int| 0 <= i < t2.len() implies has_key(s, #[trigger] t2[i]) && ready(s, t2, n + 1, t2[i]) by {
        if i < t.len() {
            assert(t2[i] == t[i]);
            assert(has_key(s, t[i]));
            assert(ready(s, t, n, t[i]));
            if let Some(p) = parent_of(s, t[i]) {
                let j = choose|j: int| 0 <= j < t.take(n).len() && t.take(n)[j] == p;
                assert(t2.take(n + 1)[j] == p);
            }
        } else {
            assert(t2[i] == c[i - t.len()]);
            assert(t2.take(n + 1)[n] == q0);
        }
    }
    assert forall|x: u64| #[trigger] has_key(s, x) && ready(s, t2, n + 1, x) implies t2.contains(x) by {
        match parent_of(s, x) {
            None => {
                assert(ready(s, t, n, x));
                let j = choose|j: int| 0 <= j < t.len() && t[j] == x;
                assert(t2[j] == x);
            },
            Some(p) => {
                let pre = t2.take(n + 1);
                let j = choose|j: int| 0 <= j < pre.len() && pre[j] == p;
                if j < n {
                    assert(t.take(n)[j] == p);
                    assert(ready(s, t, n, x));
                    let k = choose|k: int| 0 <= k < t.len() && t[k] == x;
                    assert(t2[k] == x);
                } else {
                    assert(p == q0);
                    lemma_key_pos(s, x);
                    let i = key_pos(s, x)->0;
                    assert(s[i].key == x && s[i].parent == Some(q0));
                    assert(c.contains(x));
                    let k = choose|k: int| 0 <= k < c.len() && c[k] == x;
                    assert(t2[t.len() + k] == x);
                }
            },
        }
    }
    assert(t2.skip(n + 1) =~= t.skip(n).drop_first() + c);
    assert forall|x: u64| #[trigger] has_key(s, x) && !t2.contains(x) implies exists|a: u64|
        #[trigger] t2.skip(n + 1).contains(a) && is_anc(s, a, x) by {
        if t.contains(x) {
            let j = choose|j: int| 0 <= j < t.len() && t[j] == x;
            assert(t2[j] == x);
        }
        let a = choose|a: u64| #[trigger] t.skip(n).contains(a) && is_anc(s, a, x);
        let ja = choose|ja: int| 0 <= ja < t.skip(n).len() && t.skip(n)[ja] == a;
        if ja > 0 {
            assert(t2.skip(n + 1)[ja - 1] == a);
            assert(t2.skip(n + 1).contains(a));
        } else {
            assert(a == q0);
            let m = choose|m: nat| m >= 1 && #[trigger] up(s, Some(x), m) == Some(a);
            lemma_up_step(s, Some(x), (m - 1) as nat);
            assert((m - 1 + 1) as nat == m);
            if m == 1 {
                assert(up(s, Some(x), 0) == Some(x));
                lemma_key_pos(s, x);
                let i = key_pos(s, x)->0;
                assert(s[i].key == x && s[i].parent == Some(q0));
                assert(c.contains(x));
                let k = choose|k: int| 0 <= k < c.len() && c[k] == x;
                assert(t2[t.len() + k] == x);
            } else {
                let y = up(s, Some(x), (m - 1) as nat)->0;
                assert(parent_of(s, y) == Some(q0));
                assert(has_key(s, y));
                lemma_key_pos(s, y);
                let i = key_pos(s, y)->0;
                assert(s[i].key == y && s[i].parent == Some(q0));
                assert(c.contains(y));
                let k = choose|k: int| 0 <= k < c.len() && c[k] == y;
                assert(t2.skip(n + 1)[t.skip(n).len() - 1 + k] == y);
                assert(t2.skip(n + 1).contains(y));
                assert(up(s, Some(x), (m - 1) as nat) == Some(y));
                assert(is_anc(s, y, x));
            }
        }
    }
}

/// From a consistent moment, walking on with enough steps left lists every
/// mirrored node exactly once.
proof fn lemma_walk_rest(s: Seq<NodeView>, next_key: u64, t: Seq<u64>, n: int, fuel: nat)
    requires
        nodes_wf(s, next_key),
        walk_state(s, t, n),
        n + fuel >= s.len(),
    ensures
        (t.take(n) + bfs(s, t.skip(n), fuel)).no_duplicates(),
        forall|k: u64| has_key(s, k) <==> #[trigger] (t.take(n) + bfs(s, t.skip(n), fuel)).contains(k),
    decreases fuel,
{
    if n == t.len() {
        assert(t.skip(n) =~= Seq::<u64>::empty());
        assert(t.take(n) =~= t);
        assert(t.take(n) + bfs(s, t.skip(n), fuel) =~= t);
        assert forall|k: u64| has_key(s, k) implies t.contains(k) by {
            if !t.contains(k) {
                let a = choose|a: u64| #[trigger] t.skip(n).contains(a) && is_anc(s, a, k);
            }
        }
    } else if fuel == 0 {
        lemma_keys_fit(s, t);
    } else {
        let q0 = t[n];
        let t2 = t + children_of(s, Some(q0));
        lemma_walk_step(s, next_key, t, n);
        lemma_walk_rest(s, next_key, t2, n + 1, (fuel - 1) as nat);
        assert(t.skip(n)[0] == q0);
        assert(t2.skip(n + 1) =~= t.skip(n).drop_first() + children_of(s, Some(q0)));
        assert(t2.take(n + 1) =~= t.take(n).push(q0));
        assert(t.take(n) + bfs(s, t.skip(n), fuel) =~= t2.take(n + 1) + bfs(s, t2.skip(n + 1), (fuel - 1) as nat));
    }
}

/// Walking the mirror breadth-first from its top level, one step per mirrored
/// node, meets every mirrored node and meets none twice. (The full explorer
/// snapshot and the list of nodes a patch added are read in this order.)
pub proof fn lemma_walk_covers_all(s: Seq<NodeView>, next_key: u64)
    requires
        nodes_wf(s, next_key),
    ensures
        bfs(s, children_of(s, None), s.len()).no_duplicates(),
        forall|k: u64| has_key(s, k) <==> #[trigger] bfs(s, children_of(s, None), s.len()).contains(k),
{
    let t = children_of(s, None);
    lemma_walk_start(s, next_key);
    lemma_walk_rest(s, next_key, t, 0, s.len());
    assert(t.take(0) + bfs(s, t.skip(0), s.len()) =~= bfs(s, t, s.len())) by {
        assert(t.skip(0) =~= t);
    }
}


/// Each step up from a mirrored node lands on a mirrored node or the top.
proof fn lemma_up_lands(s: Seq<NodeView>, next_key: u64, x: u64, i: nat)
    requires
        nodes_wf(s, next_key),
        has_key(s, x),
    ensures
        up(s, Some(x), i) matches Some(y) ==> has_key(s, y),
    decreases i,
{
    if i > 0 {
        lemma_up_lands(s, next_key, x, (i - 1) as nat);
        lemma_up_step(s, Some(x), (i - 1) as nat);
        assert((i - 1 + 1) as nat == i);
        if let Some(z) = up(s, Some(x), (i - 1) as nat) {
            if let Some(p) = parent_of(s, z) {
                lemma_key_pos(s, z);
                let j = key_pos(s, z)->0;
                assert(s[j].parent == Some(p));
            }
        }
    }
}

/// The parent chain of a mirrored node reaches the top within as many steps
/// as there are mirrored nodes. (Walks up the tree, such as the one that
/// spells a node's path for search, take that many steps at most.)
pub proof fn lemma_chain_short(s: Seq<NodeView>, next_key: u64, x: u64)
    requires
        nodes_wf(s, next_key),
        has_key(s, x),
    ensures
        up(s, Some(x), s.len()) is None,
{
    if up(s, Some(x), s.len()) is Some {
        let n = s.len();
        let t = Seq::new(n + 1, |i: int| up(s, Some(x), i as nat)->0);
        assert forall|i: int| 0 <= i < t.len() implies up(s, Some(x), i as nat) == Some(#[trigger] t[i])
            && has_key(s, t[i]) by {
            if up(s, Some(x), i as nat) is None {
                lemma_up_root(s, Some(x), i as nat, n);
            }
            lemma_up_lands(s, next_key, x, i as nat);
        }
        assert forall|i: int, j: int| 0 <= i < t.len() && 0 <= j < t.len() && i != j implies t[i] != t[j] by {
            if t[i] == t[j] {
                let (a, b) = if i < j { (i, j) } else { (j, i) };
                let y = t[a];
                assert(up(s, Some(x), a as nat) == Some(y));
                assert(up(s, Some(x), b as nat) == Some(y));
                lemma_up_add(s, Some(x), a as nat, (b - a) as nat);
                assert((a + (b - a)) as nat == b as nat);
                assert(up(s, Some(y), (b - a) as nat) == Some(y));
                assert(is_anc(s, y, y));
                lemma_no_cycles(s, next_key, y);
            }
        }
        lemma_keys_fit(s, t);
    }
}

} // verus!
