use broker::dom::{MirrorValue, SessionDom};
use broker::protocol::dom::{DomInstance, DomPatch, DomUpdate, TagChange};
use broker::protocol::value::DomValue;

fn node(id: &str, parent: Option<&str>, class: &str, name: &str) -> DomInstance {
    DomInstance {
        id: id.into(),
        parent: parent.map(Into::into),
        class: class.into(),
        name: name.into(),
        has_children: false,
        properties: Vec::new(),
        attributes: Vec::new(),
        tags: None,
    }
}

fn upserts(dom: &mut SessionDom, upserts: Vec<DomInstance>) {
    dom.apply(DomPatch { upserts, removals: vec![], updates: vec![] });
}

fn parent_of(dom: &SessionDom, id: &str) -> Option<u64> {
    dom.get(id).unwrap().parent
}

fn key_of(dom: &SessionDom, id: &str) -> u64 {
    dom.get(id).unwrap().key
}

fn float(value: f64) -> DomValue {
    DomValue::Float(value.to_bits())
}

/// The attribute store of `id`, sorted by name.
fn attributes(dom: &SessionDom, id: &str) -> Option<Vec<(String, DomValue)>> {
    match dom.get(id).unwrap().value("Attributes") {
        Some(MirrorValue::Attributes(pairs)) => {
            let mut pairs = pairs.clone();
            pairs.sort_by(|a, b| a.0.cmp(&b.0));
            Some(pairs)
        }
        _ => None,
    }
}

fn sorted(pairs: Vec<(&str, DomValue)>) -> Vec<(String, DomValue)> {
    let mut pairs: Vec<(String, DomValue)> = pairs.into_iter().map(|(k, v)| (k.to_string(), v)).collect();
    pairs.sort_by(|a, b| a.0.cmp(&b.0));
    pairs
}

fn tags(dom: &SessionDom, id: &str) -> Option<Vec<String>> {
    match dom.get(id).unwrap().value("Tags") {
        Some(MirrorValue::Tags(tags)) => Some(tags.clone()),
        _ => None,
    }
}

#[test]
fn upserts_build_a_tree_regardless_of_order_within_a_patch() {
    let mut dom = SessionDom::new();
    // Child listed before its parent on purpose.
    upserts(&mut dom, vec![node("child", Some("parent"), "Part", "Child"), node("parent", None, "Folder", "Parent")]);

    let parent = dom.get("parent").unwrap();
    let child = dom.get("child").unwrap();
    assert_eq!(parent.parent, None);
    assert_eq!(child.parent, Some(parent.key));
    assert_eq!(child.class, "Part");
    assert_eq!(dom.len(), 2);
}

#[test]
fn upserting_an_existing_id_refreshes_it_in_place() {
    let mut dom = SessionDom::new();
    let mut with_props = node("a", None, "Part", "Before");
    with_props.properties.push(("Anchored".into(), DomValue::Bool(false)));
    upserts(&mut dom, vec![with_props]);
    let key = key_of(&dom, "a");

    let mut updated = node("a", None, "Part", "After");
    updated.properties.push(("Anchored".into(), DomValue::Bool(true)));
    upserts(&mut dom, vec![updated]);

    let instance = dom.get("a").unwrap();
    assert_eq!(instance.name, "After");
    assert_eq!(instance.key, key);
    assert_eq!(instance.value("Anchored"), Some(&MirrorValue::Value(DomValue::Bool(true))));
    assert_eq!(dom.len(), 1);
}

#[test]
fn later_patches_can_reparent_and_remove_subtrees() {
    let mut dom = SessionDom::new();
    upserts(
        &mut dom,
        vec![node("a", None, "Folder", "A"), node("b", None, "Folder", "B"), node("leaf", Some("a"), "Part", "Leaf")],
    );

    // Move the leaf from A to B.
    upserts(&mut dom, vec![node("leaf", Some("b"), "Part", "Leaf")]);
    let b_key = key_of(&dom, "b");
    assert_eq!(parent_of(&dom, "leaf"), Some(b_key));

    // Removing B takes the leaf's mapping with it.
    dom.apply(DomPatch { upserts: vec![], removals: vec!["b".into()], updates: vec![] });
    assert!(dom.get("b").is_none());
    assert!(dom.get("leaf").is_none());
    assert_eq!(dom.len(), 1);
}

#[test]
fn ancestry_swaps_settle_regardless_of_order_within_a_patch() {
    let mut dom = SessionDom::new();
    upserts(&mut dom, vec![node("a", None, "Folder", "A"), node("b", Some("a"), "Folder", "B")]);

    // Invert the pair: B to the root, A under B, with A listed first, whose
    // move is impossible until B's has been applied.
    upserts(&mut dom, vec![node("a", Some("b"), "Folder", "A"), node("b", None, "Folder", "B")]);
    let b_key = key_of(&dom, "b");
    assert_eq!(parent_of(&dom, "b"), None);
    assert_eq!(parent_of(&dom, "a"), Some(b_key));
}

#[test]
fn ancestry_swaps_settle_across_patches() {
    let mut dom = SessionDom::new();
    upserts(&mut dom, vec![node("a", None, "Folder", "A"), node("b", Some("a"), "Folder", "B")]);

    // The swap arrives one half at a time: A's move stays pending while B is
    // still inside A's subtree...
    upserts(&mut dom, vec![node("a", Some("b"), "Folder", "A")]);
    assert_eq!(parent_of(&dom, "a"), None);

    // ...and settles once B's half lands.
    upserts(&mut dom, vec![node("b", None, "Folder", "B")]);
    let b_key = key_of(&dom, "b");
    assert_eq!(parent_of(&dom, "a"), Some(b_key));
}

#[test]
fn object_properties_resolve_to_mirrored_referents() {
    let mut dom = SessionDom::new();

    // Forward reference: the holder lists its target before the target's own
    // upsert appears in the patch.
    let mut holder = node("holder", None, "ObjectValue", "Holder");
    holder.properties.push(("Value".into(), DomValue::Ref("target".into())));
    upserts(&mut dom, vec![holder, node("target", None, "Part", "Target")]);
    let target_key = key_of(&dom, "target");
    assert_eq!(dom.get("holder").unwrap().value("Value"), Some(&MirrorValue::Ref(Some(target_key))));

    // A target the mirror has never seen stores as the null reference.
    let mut dangling = node("dangling", None, "ObjectValue", "Dangling");
    dangling.properties.push(("Value".into(), DomValue::Ref("never-sent".into())));
    upserts(&mut dom, vec![dangling]);
    assert_eq!(dom.get("dangling").unwrap().value("Value"), Some(&MirrorValue::Ref(None)));
}

#[test]
fn attributes_merge_and_tags_replace() {
    let mut dom = SessionDom::new();
    let mut enemy = node("e", None, "Model", "Enemy");
    enemy.attributes.push(("Health".into(), float(100.0)));
    enemy.attributes.push(("Boss".into(), DomValue::Bool(false)));
    enemy.tags = Some(vec!["Enemy".into(), "Spawned".into()]);
    upserts(&mut dom, vec![enemy]);

    assert_eq!(attributes(&dom, "e"), Some(sorted(vec![("Health", float(100.0)), ("Boss", DomValue::Bool(false))])));
    assert_eq!(tags(&dom, "e"), Some(vec!["Enemy".to_string(), "Spawned".to_string()]));

    // Attributes merge key-by-key; `tags: None` leaves tags untouched.
    let mut update = node("e", None, "Model", "Enemy");
    update.attributes.push(("Health".into(), float(25.0)));
    // Object references are invalid as attribute values and are skipped.
    update.attributes.push(("Owner".into(), DomValue::Ref("e".into())));
    upserts(&mut dom, vec![update]);
    assert_eq!(attributes(&dom, "e"), Some(sorted(vec![("Health", float(25.0)), ("Boss", DomValue::Bool(false))])));
    assert_eq!(tags(&dom, "e"), Some(vec!["Enemy".to_string(), "Spawned".to_string()]));

    // `Some(tags)` replaces wholesale, including clearing with an empty list.
    let mut retag = node("e", None, "Model", "Enemy");
    retag.tags = Some(vec![]);
    upserts(&mut dom, vec![retag]);
    assert_eq!(tags(&dom, "e"), Some(Vec::<String>::new()));
}

#[test]
fn updates_change_values_without_touching_identity() {
    let mut dom = SessionDom::new();
    let mut enemy = node("e", None, "Model", "Enemy");
    enemy.properties.push(("Anchored".into(), DomValue::Bool(false)));
    enemy.attributes.push(("Health".into(), float(100.0)));
    enemy.attributes.push(("Boss".into(), DomValue::Bool(true)));
    enemy.tags = Some(vec!["Enemy".into()]);
    upserts(&mut dom, vec![enemy]);

    // Change a property, overwrite one attribute, remove another and replace
    // the tags, without re-sending name/class/parent.
    dom.apply(DomPatch {
        upserts: vec![],
        removals: vec![],
        updates: vec![DomUpdate {
            id: "e".into(),
            properties: vec![("Anchored".to_string(), Some(DomValue::Bool(true)))],
            attributes: vec![("Health".to_string(), Some(float(25.0))), ("Boss".to_string(), None)],
            tags: TagChange::Replace(vec!["Dead".into(), "Enemy".into()]),
        }],
    });

    let instance = dom.get("e").unwrap();
    assert_eq!(instance.name, "Enemy");
    assert_eq!(instance.class, "Model");
    assert_eq!(instance.value("Anchored"), Some(&MirrorValue::Value(DomValue::Bool(true))));
    assert_eq!(attributes(&dom, "e"), Some(sorted(vec![("Health", float(25.0))])));

    // A `None` property forgets the stored value; a tag delta touches only the
    // listed tags (removing absent / adding present are no-ops).
    dom.apply(DomPatch {
        upserts: vec![],
        removals: vec![],
        updates: vec![DomUpdate {
            id: "e".into(),
            properties: vec![("Anchored".to_string(), None)],
            attributes: vec![],
            tags: TagChange::Delta {
                add: vec!["Boss".into(), "Enemy".into()],
                remove: vec!["Dead".into(), "never-tagged".into()],
            },
        }],
    });
    assert_eq!(dom.get("e").unwrap().value("Anchored"), None);
    assert_eq!(tags(&dom, "e"), Some(vec!["Enemy".to_string(), "Boss".to_string()]));

    // An update in the same patch as the upsert it targets applies, and one
    // aimed at an unmirrored id is dropped.
    let mut ally = node("a", None, "Model", "Ally");
    ally.properties.push(("Anchored".into(), DomValue::Bool(false)));
    dom.apply(DomPatch {
        upserts: vec![ally],
        removals: vec![],
        updates: vec![
            DomUpdate {
                id: "a".into(),
                properties: vec![("Anchored".to_string(), Some(DomValue::Bool(true)))],
                ..Default::default()
            },
            DomUpdate { id: "never-sent".into(), ..Default::default() },
        ],
    });
    assert_eq!(dom.get("a").unwrap().value("Anchored"), Some(&MirrorValue::Value(DomValue::Bool(true))));
    assert_eq!(dom.len(), 2);
}

#[test]
fn unknown_parents_and_cycles_fall_back_safely() {
    let mut dom = SessionDom::new();
    upserts(&mut dom, vec![node("orphan", Some("never-sent"), "Part", "Orphan")]);
    assert_eq!(parent_of(&dom, "orphan"), None);

    upserts(&mut dom, vec![node("outer", None, "Folder", "Outer"), node("inner", Some("outer"), "Folder", "Inner")]);
    // Parenting `outer` under its own child must not detach the subtree.
    upserts(&mut dom, vec![node("outer", Some("inner"), "Folder", "Outer")]);
    assert_eq!(parent_of(&dom, "outer"), None);
    let outer = key_of(&dom, "outer");
    assert_eq!(parent_of(&dom, "inner"), Some(outer));

    // Removing an id that was never mirrored is a no-op.
    dom.apply(DomPatch { upserts: vec![], removals: vec!["never-sent".into()], updates: vec![] });
    assert_eq!(dom.len(), 3);
}

#[test]
fn a_node_asked_to_hang_under_itself_stays_put() {
    let mut dom = SessionDom::new();
    upserts(&mut dom, vec![node("a", None, "Folder", "A")]);
    upserts(&mut dom, vec![node("a", Some("a"), "Folder", "A")]);
    assert_eq!(parent_of(&dom, "a"), None);
    assert_eq!(dom.len(), 1);
}

#[test]
fn removing_a_node_removes_its_whole_subtree_only() {
    let mut dom = SessionDom::new();
    upserts(
        &mut dom,
        vec![
            node("top", None, "Folder", "Top"),
            node("mid", Some("top"), "Folder", "Mid"),
            node("low", Some("mid"), "Part", "Low"),
            node("side", Some("top"), "Part", "Side"),
        ],
    );
    dom.apply(DomPatch { upserts: vec![], removals: vec!["mid".into()], updates: vec![] });
    assert!(dom.get("mid").is_none());
    assert!(dom.get("low").is_none());
    assert!(dom.get("side").is_some());
    assert_eq!(dom.len(), 2);
    let top = key_of(&dom, "top");
    assert_eq!(dom.children(Some(top)), vec![key_of(&dom, "side")]);
}

#[test]
fn children_list_in_attachment_order_and_moves_go_last() {
    let mut dom = SessionDom::new();
    upserts(
        &mut dom,
        vec![node("f", None, "Folder", "F"), node("x", Some("f"), "Part", "X"), node("y", Some("f"), "Part", "Y")],
    );
    let f = key_of(&dom, "f");
    let (x, y) = (key_of(&dom, "x"), key_of(&dom, "y"));
    assert_eq!(dom.children(Some(f)), vec![x, y]);
    assert_eq!(dom.children(None), vec![f]);

    // Moving x to the root and back puts it after y.
    upserts(&mut dom, vec![node("x", None, "Part", "X")]);
    upserts(&mut dom, vec![node("x", Some("f"), "Part", "X")]);
    assert_eq!(dom.children(Some(f)), vec![y, x]);
}

#[test]
fn has_children_follows_the_flag_or_a_mirrored_child() {
    let mut dom = SessionDom::new();
    let mut flagged = node("lazy", None, "Folder", "Lazy");
    flagged.has_children = true;
    upserts(&mut dom, vec![flagged, node("plain", None, "Folder", "Plain"), node("kid", Some("plain"), "Part", "Kid")]);
    assert!(dom.has_children(key_of(&dom, "lazy")));
    assert!(dom.has_children(key_of(&dom, "plain")));
    assert!(!dom.has_children(key_of(&dom, "kid")));
    assert!(!dom.has_children(u64::MAX));
}

#[test]
fn id_of_names_the_client_id_of_a_key() {
    let mut dom = SessionDom::new();
    assert!(dom.is_empty());
    upserts(&mut dom, vec![node("a", None, "Folder", "A")]);
    let key = key_of(&dom, "a");
    assert_eq!(dom.id_of(Some(key)).map(String::as_str), Some("a"));
    assert_eq!(dom.id_of(None), None);
    assert!(dom.node(key).is_some());
    assert!(!dom.is_empty());
    assert!(dom.can_take(1));
}
