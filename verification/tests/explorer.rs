use broker::dom::{DomChange, SessionDom};
use broker::protocol::dom::{DomInstance, DomPatch};
use broker::verde::explorer::{DeltaOp, Served, Snapshot};
use broker::verde::serve::{serve_step, should_arm_flush, ServeAction, ServeEvent};
use broker::verde::serialize::{children_of, full, roots, search, shallow_node};
use broker::verde::tree_state::TreeState;
use std::time::Instant;

fn instance(id: &str, parent: Option<&str>, class: &str, name: &str) -> DomInstance {
    DomInstance {
        id: id.into(),
        parent: parent.map(Into::into),
        class: class.into(),
        name: name.into(),
        has_children: false,
        properties: Vec::new(),
        attributes: Vec::new(),
        tags: None,
    }
}

fn mirror(upserts: Vec<DomInstance>) -> SessionDom {
    let mut dom = SessionDom::new();
    dom.apply(DomPatch { upserts, removals: vec![], updates: vec![] });
    dom
}

fn seeded() -> SessionDom {
    mirror(vec![
        instance("ws", None, "Workspace", "Workspace"),
        instance("part", Some("ws"), "Part", "Brick"),
        instance("weld", Some("part"), "Weld", "Weld"),
    ])
}

fn subtrees(tree: &TreeState) -> usize {
    tree.delta_buf.iter().filter(|op| matches!(op, DeltaOp::AddSubtree { .. })).count()
}

#[test]
fn roots_are_shallow_services_with_a_null_parent() {
    let snapshot = roots(&seeded());
    assert_eq!(snapshot.root_ids, vec!["ws".to_string()]);
    assert_eq!(snapshot.nodes.len(), 1);

    let node = &snapshot.nodes[0];
    assert_eq!(node.class_name, "Workspace");
    assert_eq!(node.parent_id, None);
    assert_eq!(node.has_children, Some(true));
    assert!(node.children.is_empty(), "roots are shallow");
}

#[test]
fn children_of_lists_shallow_children_with_their_parent() {
    let children = children_of(&seeded(), "ws");
    assert_eq!(children.len(), 1);
    assert_eq!(children[0].id, "part");
    assert_eq!(children[0].parent_id, Some("ws".to_string()));
    assert_eq!(children[0].has_children, Some(true));
    assert!(children[0].children.is_empty());
}

#[test]
fn full_lists_every_node_with_its_child_ids() {
    let snapshot = full(&seeded());
    assert_eq!(snapshot.root_ids, vec!["ws".to_string()]);
    assert_eq!(snapshot.nodes.len(), 3);

    let ws = snapshot.nodes.iter().find(|node| node.id == "ws").unwrap();
    assert_eq!(ws.children, vec!["part".to_string()]);
    let leaf = snapshot.nodes.iter().find(|node| node.id == "weld").unwrap();
    assert!(leaf.children.is_empty());
    assert_eq!(leaf.has_children, Some(false));
}

#[test]
fn search_matches_by_name_and_grafts_ancestors() {
    let dom = mirror(vec![
        instance("ws", None, "Workspace", "Workspace"),
        instance("brick", Some("ws"), "Part", "Brick"),
        instance("cam", Some("ws"), "Camera", "Camera"),
    ]);

    let (nodes, truncated) = search(&dom, "brick");
    assert!(!truncated);
    let ids: Vec<&str> = nodes.iter().map(|node| node.id.as_str()).collect();
    assert!(ids.contains(&"brick"), "the match is included");
    assert!(ids.contains(&"ws"), "its ancestor is grafted");
    assert!(!ids.contains(&"cam"), "an unrelated sibling is not matched");
}

#[test]
fn a_lazily_mirrored_root_advertises_children_via_the_flag() {
    // Only the service is mirrored (lazy), its children are not, but the
    // client flagged it as having some.
    let mut workspace = instance("ws", None, "Workspace", "Workspace");
    workspace.has_children = true;
    let dom = mirror(vec![workspace]);

    let snapshot = roots(&dom);
    assert_eq!(snapshot.nodes.len(), 1);
    assert_eq!(snapshot.nodes[0].has_children, Some(true), "expandable despite no mirrored children");
    assert!(snapshot.nodes[0].children.is_empty());
}

#[test]
fn search_matches_by_class_name_too() {
    let (nodes, _) = search(&seeded(), "weld");
    let ids: Vec<&str> = nodes.iter().map(|node| node.id.as_str()).collect();
    // "weld" matches both the Weld instance's name and class.
    assert!(ids.contains(&"weld"));
    assert!(ids.contains(&"part") && ids.contains(&"ws"), "ancestors grafted");
}

#[test]
fn search_tokens_split_on_dots_and_white_space_and_ignore_case() {
    let (nodes, _) = search(&seeded(), "WORKSPACE.brick  weld");
    let ids: Vec<&str> = nodes.iter().map(|node| node.id.as_str()).collect();
    assert_eq!(ids, vec!["ws", "part", "weld"]);
    let (none, truncated) = search(&seeded(), " . ");
    assert!(none.is_empty() && !truncated);
    let (missing, _) = search(&seeded(), "camera");
    assert!(missing.is_empty());
}

#[test]
fn search_stops_at_the_cap_and_flags_truncation() {
    let mut upserts = vec![instance("ws", None, "Workspace", "Workspace")];
    for i in 0..600 {
        upserts.push(instance(&format!("p{i}"), Some("ws"), "Part", "Brick"));
    }
    let (nodes, truncated) = search(&mirror(upserts), "brick");
    assert!(truncated);
    assert_eq!(nodes.len(), 500);
}

#[test]
fn shallow_nodes_exist_only_for_mirrored_ids() {
    let dom = seeded();
    let node = shallow_node(&dom, "part").unwrap();
    assert_eq!(node.name, "Brick");
    assert_eq!(node.parent_id, Some("ws".to_string()));
    assert!(shallow_node(&dom, "nope").is_none());
}

#[test]
fn reveal_path_adds_the_unknown_ancestor_chain() {
    let dom = mirror(vec![
        instance("root", None, "Folder", "root"),
        instance("mid", Some("root"), "Folder", "mid"),
        instance("leaf", Some("mid"), "Folder", "leaf"),
    ]);

    // Verde knows only the root; reveal a deep ref.
    let mut tree = TreeState::new();
    tree.known.insert("root".to_string());
    tree.reveal_path(&dom, "leaf", &Instant::now());

    // `mid` then `leaf` are attached under their now-present parents.
    assert_eq!(subtrees(&tree), 2, "mid and leaf are added");
    assert!(tree.known.contains("mid") && tree.known.contains("leaf"));
    assert!(tree.loaded.contains("root") && tree.loaded.contains("mid"), "parents on the path are loaded");

    // Revealing an already-known node is a no-op.
    tree.delta_buf.clear();
    tree.reveal_path(&dom, "leaf", &Instant::now());
    assert!(tree.delta_buf.is_empty(), "no duplicate adds for a path already in the tree");
}

#[test]
fn translate_forwards_a_whole_added_subtree() {
    let dom = mirror(vec![
        instance("root", None, "Folder", "root"),
        instance("a", Some("root"), "Folder", "a"),
        instance("b", Some("root"), "Folder", "b"),
    ]);
    let change = DomChange {
        added: vec!["root".into(), "a".into(), "b".into()],
        ..Default::default()
    };

    let mut tree = TreeState::new();
    tree.translate(&dom, &change, &Instant::now());

    // The whole subtree reaches verde, the root plus both children.
    assert_eq!(subtrees(&tree), 3, "root and both children are all sent");
    assert_eq!(tree.added_roots, vec!["root".to_string()]);
    assert!(tree.known.contains("a") && tree.known.contains("b"), "children are now tracked");
    assert!(tree.loaded.contains("root"), "the parent is marked loaded");
}

#[test]
fn translate_skips_what_verde_has_no_place_for() {
    let dom = seeded();
    let change = DomChange {
        added: vec!["weld".into()],
        removed: vec!["gone".into()],
        moved: vec!["part".into()],
        renamed: vec!["part".into()],
        children_changed: vec!["part".into()],
    };
    let mut tree = TreeState::new();
    tree.translate(&dom, &change, &Instant::now());
    assert!(tree.delta_buf.is_empty(), "nothing about nodes verde does not know");

    tree.known.insert("part".to_string());
    tree.known.insert("gone".to_string());
    tree.translate(&dom, &change, &Instant::now());
    assert_eq!(tree.delta_buf.len(), 5);
    assert!(matches!(&tree.delta_buf[0], DeltaOp::AddSubtree { parent_id: Some(p), root_id, .. } if p == "part" && root_id == "weld"));
    assert!(matches!(&tree.delta_buf[1], DeltaOp::RemoveNode { id, .. } if id == "gone"));
    assert!(matches!(&tree.delta_buf[2], DeltaOp::MoveNode { id, new_parent_id: Some(p), .. } if id == "part" && p == "ws"));
    assert!(matches!(&tree.delta_buf[3], DeltaOp::UpdateNode { name: Some(n), has_children: None, .. } if n == "Brick"));
    assert!(matches!(&tree.delta_buf[4], DeltaOp::UpdateNode { name: None, has_children: Some(true), .. }));
    assert!(!tree.known.contains("gone"));
}

#[test]
fn seeding_and_flushing_reset_the_buffers() {
    let dom = seeded();
    let snapshot: Snapshot = full(&dom);
    let mut tree = TreeState::new();
    tree.seed(&snapshot, true);
    assert!(tree.known.contains("weld") && tree.loaded.contains("weld"));
    tree.seed(&roots(&dom), false);
    assert!(tree.known.contains("ws") && !tree.known.contains("weld"));
    assert!(!tree.loaded.contains("ws"));
    assert!(tree.take_delta().is_none());

    tree.reveal_path(&dom, "weld", &Instant::now());
    let (ops, added) = tree.take_delta().unwrap();
    assert_eq!(ops.len(), 2);
    assert!(added.is_empty());
    assert!(tree.delta_buf.is_empty() && tree.take_delta().is_none());
}

#[test]
fn requested_children_are_attached_flagged_or_asked_for() {
    let mut lazy = instance("lazy", None, "Folder", "Lazy");
    lazy.has_children = true;
    let dom = mirror(vec![
        instance("ws", None, "Workspace", "Workspace"),
        instance("part", Some("ws"), "Part", "Brick"),
        instance("empty", None, "Folder", "Empty"),
        lazy,
    ]);
    let mut tree = TreeState::new();
    tree.seed(&roots(&dom), false);

    let asks = tree.request_children(&dom, &vec!["ws".into(), "empty".into(), "lazy".into(), "unknown".into()], &Instant::now());
    assert_eq!(asks, vec!["lazy".to_string()]);
    assert_eq!(tree.delta_buf.len(), 2);
    assert!(matches!(&tree.delta_buf[0], DeltaOp::AddSubtree { root_id, .. } if root_id == "part"));
    assert!(matches!(&tree.delta_buf[1], DeltaOp::UpdateNode { has_children: Some(false), .. }));
    assert!(tree.known.contains("part"));
    assert!(tree.loaded.contains("ws") && tree.loaded.contains("lazy"));

    // Already loaded parents are not answered twice.
    let again = tree.request_children(&dom, &vec!["ws".into()], &Instant::now());
    assert!(again.is_empty());
    assert_eq!(tree.delta_buf.len(), 2);

    tree.release_subtree(&vec!["ws".into()], &vec!["part".into()]);
    assert!(!tree.loaded.contains("ws") && !tree.known.contains("part"));
}

#[test]
fn applying_a_patch_reports_what_changed() {
    let mut dom = SessionDom::new();
    let change = dom.apply_reporting(DomPatch {
        upserts: vec![
            instance("a", Some("root"), "Folder", "a"),
            instance("root", None, "Folder", "root"),
            instance("b", Some("root"), "Folder", "b"),
        ],
        removals: vec![],
        updates: vec![],
    });
    // Parents come before their children, whatever the upsert order; `a`
    // arrived before its parent, so it was attached after `b`.
    assert_eq!(change.added, vec!["root".to_string(), "b".to_string(), "a".to_string()]);
    assert!(change.removed.is_empty() && change.moved.is_empty() && change.renamed.is_empty());
    assert!(change.children_changed.is_empty());

    let mut tree = TreeState::new();
    tree.translate(&dom, &change, &Instant::now());
    assert_eq!(subtrees(&tree), 3);

    let change = dom.apply_reporting(DomPatch {
        upserts: vec![instance("a", Some("root"), "Folder", "A2"), instance("b", Some("a"), "Folder", "b")],
        removals: vec![],
        updates: vec![],
    });
    assert!(change.added.is_empty() && change.removed.is_empty());
    assert_eq!(change.moved, vec!["b".to_string()]);
    assert_eq!(change.renamed, vec!["a".to_string()]);
    assert_eq!(change.children_changed, vec!["a".to_string()]);

    let change = dom.apply_reporting(DomPatch { upserts: vec![], removals: vec!["a".into()], updates: vec![] });
    assert_eq!(change.removed, vec!["a".to_string(), "b".to_string()]);
    assert_eq!(change.children_changed, vec!["root".to_string()]);
    assert!(!change.is_empty());
    let nothing = dom.apply_reporting(DomPatch { upserts: vec![], removals: vec![], updates: vec![] });
    assert!(nothing.is_empty());
}

#[test]
fn a_full_snapshot_meets_every_node_once_breadth_first() {
    // Children arrive before their parents and across two top-level nodes.
    let dom = mirror(vec![
        instance("leaf", Some("mid"), "Part", "Leaf"),
        instance("mid", Some("a"), "Model", "Mid"),
        instance("a", None, "Workspace", "A"),
        instance("b", None, "Lighting", "B"),
        instance("b1", Some("b"), "Sky", "B1"),
        instance("a1", Some("a"), "Part", "A1"),
    ]);
    let snapshot = full(&dom);
    let ids: Vec<&str> = snapshot.nodes.iter().map(|node| node.id.as_str()).collect();
    assert_eq!(ids.len(), 6);
    let mut sorted = ids.clone();
    sorted.sort();
    sorted.dedup();
    assert_eq!(sorted.len(), 6, "no node is listed twice");
    // Breadth-first: both top-level nodes come before any of their children.
    assert_eq!(&ids[..2], &["a", "b"]);
    assert_eq!(ids.last(), Some(&"leaf"));
}

fn stamp(op: &DeltaOp) -> u64 {
    match op {
        DeltaOp::AddSubtree { timestamp, .. }
        | DeltaOp::RemoveNode { timestamp, .. }
        | DeltaOp::UpdateNode { timestamp, .. }
        | DeltaOp::MoveNode { timestamp, .. } => *timestamp,
    }
}

#[test]
fn each_edit_is_stamped_from_the_clock_when_it_is_made() {
    let dom = seeded();
    let epoch = Instant::now();
    let mut tree = TreeState::new();
    tree.known.insert("part".to_string());
    let change = DomChange {
        added: vec!["weld".into()],
        removed: vec![],
        moved: vec!["part".into()],
        renamed: vec!["part".into()],
        children_changed: vec![],
    };
    tree.translate(&dom, &change, &epoch);
    let pause = Instant::now();
    while pause.elapsed() < std::time::Duration::from_millis(5) {}
    tree.translate(&dom, &change, &epoch);
    let stamps: Vec<u64> = tree.delta_buf.iter().map(stamp).collect();
    assert_eq!(stamps.len(), 6);
    assert!(stamps.windows(2).all(|w| w[0] <= w[1]), "stamps never go back: {stamps:?}");
    assert!(stamps[3] >= stamps[2] + 5_000_000, "later edits carry later stamps: {stamps:?}");
}

#[test]
fn a_search_lists_each_node_once_with_parents_first() {
    // Two matches share their ancestors; the shared ones are listed once.
    let dom = mirror(vec![
        instance("ws", None, "Workspace", "Workspace"),
        instance("m", Some("ws"), "Model", "Car"),
        instance("w1", Some("m"), "Part", "Wheel"),
        instance("w2", Some("m"), "Part", "WheelBack"),
        instance("x", Some("ws"), "Part", "Rock"),
    ]);
    let (nodes, truncated) = search(&dom, "wheel");
    assert!(!truncated);
    let ids: Vec<&str> = nodes.iter().map(|node| node.id.as_str()).collect();
    assert_eq!(ids, vec!["ws", "m", "w1", "w2"]);
    for (i, node) in nodes.iter().enumerate() {
        if let Some(parent) = &node.parent_id {
            assert!(ids[..i].contains(&parent.as_str()), "{} comes after its parent", node.id);
        }
    }
    assert!(!ids.contains(&"x"), "neither a match nor an ancestor of one");
    assert_eq!(search(&dom, "  . ").0.len(), 0, "an empty query gives nothing");
}

#[test]
fn a_verde_connection_stops_only_when_its_socket_or_session_goes() {
    assert_eq!(serve_step(ServeEvent::SessionChanged), ServeAction::Stop(Served::Switched));
    assert_eq!(serve_step(ServeEvent::Idle), ServeAction::Stop(Served::Closed));
    assert_eq!(serve_step(ServeEvent::ReadFailed), ServeAction::Fail);
    assert_eq!(serve_step(ServeEvent::ChangesLagged), ServeAction::Resync);
    assert_eq!(serve_step(ServeEvent::MirrorChanged), ServeAction::Translate);
    assert_eq!(serve_step(ServeEvent::OperationDone { references: true }), ServeAction::Answer { reveal: true });
    assert_eq!(serve_step(ServeEvent::OtherFrame), ServeAction::Ignore);
    assert!(should_arm_flush(false, true));
    assert!(!should_arm_flush(true, true));
    assert!(!should_arm_flush(false, false));
}
