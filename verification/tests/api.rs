use broker::api::{class_properties, property_meta, ApiDump, ClassEntry, PropMeta};
use broker::cli::SecurityLevel;

fn meta(category: &str, read_only: bool, security_level: u8) -> PropMeta {
    PropMeta { category: category.into(), read_only, layout_order: 0, security_level }
}

fn class(name: &str, superclass: Option<&str>, properties: Vec<(&str, PropMeta)>) -> ClassEntry {
    ClassEntry {
        name: name.into(),
        superclass: superclass.map(Into::into),
        properties: properties.into_iter().map(|(name, meta)| (name.to_string(), meta)).collect(),
    }
}

/// A slice of the API dump: the part of the class tree these tests look at,
/// with hidden properties (such as `Part.Position`) left out as the dump does.
fn dump() -> ApiDump {
    ApiDump::new(vec![
        class("Object", None, vec![("ClassName", meta("Data", true, 0))]),
        class("Instance", Some("Object"), vec![("Name", meta("Data", false, 0)), ("Parent", meta("Data", false, 0))]),
        class("PVInstance", Some("Instance"), vec![]),
        class(
            "BasePart",
            Some("PVInstance"),
            vec![
                ("Anchored", meta("Behavior", false, 0)),
                ("Transparency", meta("Appearance", false, 0)),
                ("CFrame", meta("Data", false, 0)),
            ],
        ),
        class("Part", Some("BasePart"), vec![("Shape", meta("Part", false, 0))]),
        class(
            "Player",
            Some("Instance"),
            vec![
                ("AccountAge", meta("Data", true, 0)),
                ("UserId", meta("Data", true, 0)),
                ("MembershipType", meta("Data", true, 0)),
                ("User", meta("Data", true, 4)),
            ],
        ),
    ])
    .expect("every superclass chain ends")
}

#[test]
fn resolves_inherited_properties_and_read_only() {
    let dump = dump();
    // Inherited from Instance, writable.
    assert_eq!(
        property_meta(&dump, "Part", "Name").map(|meta| (meta.category, meta.read_only)),
        Some((String::from("Data"), false))
    );
    // Inherited from Object, read-only.
    assert_eq!(property_meta(&dump, "Part", "ClassName").map(|meta| meta.read_only), Some(true));
    // An own, visible property of BasePart.
    assert!(property_meta(&dump, "Part", "Transparency").is_some());
    // Position is absent (hidden in the dump), as are unknown properties and classes.
    assert_eq!(property_meta(&dump, "Part", "Position"), None);
    assert_eq!(property_meta(&dump, "Part", "NotARealProperty"), None);
    assert_eq!(property_meta(&dump, "NotARealClass", "Name"), None);
}

#[test]
fn class_properties_collects_the_visible_hierarchy() {
    let dump = dump();
    let props = class_properties(&dump, "Part", 2);
    // Own + inherited visible properties are present, deduped.
    for name in ["Anchored", "Transparency", "CFrame", "Name"] {
        assert!(props.iter().any(|p| p == name), "expected {name} in Part's properties");
    }
    // Hidden/derived ones are excluded.
    assert!(!props.iter().any(|p| p == "Position"));
    // No duplicates.
    let mut sorted = props.clone();
    sorted.sort();
    sorted.dedup();
    assert_eq!(sorted.len(), props.len(), "property list has no duplicates");
    // Unknown class yields nothing.
    assert!(class_properties(&dump, "NotARealClass", 2).is_empty());
}

#[test]
fn class_properties_filters_by_write_security() {
    let dump = dump();
    // `Player.User` is Roblox-only-write (ordinal 4): hidden at the default
    // level, revealed only when the threshold is raised to it.
    assert!(!class_properties(&dump, "Player", SecurityLevel::default().ordinal()).iter().any(|p| p == "User"));
    assert!(class_properties(&dump, "Player", 4).iter().any(|p| p == "User"));
    // Ordinary read-only props stay visible at the default level.
    for name in ["AccountAge", "UserId", "MembershipType"] {
        assert!(
            class_properties(&dump, "Player", SecurityLevel::default().ordinal()).iter().any(|p| p == name),
            "expected {name} at the default level"
        );
    }
}

#[test]
fn a_dump_with_a_superclass_cycle_is_refused() {
    let looped = ApiDump::new(vec![class("A", Some("B"), vec![]), class("B", Some("A"), vec![])]);
    assert!(looped.is_none());
}

#[test]
fn the_first_class_in_the_hierarchy_decides_an_overridden_property() {
    let dump = ApiDump::new(vec![
        class("Base", None, vec![("X", meta("Base", false, 0))]),
        class("Derived", Some("Base"), vec![("X", meta("Derived", true, 0))]),
    ])
    .unwrap();
    assert_eq!(property_meta(&dump, "Derived", "X").map(|m| m.category), Some("Derived".to_string()));
    assert_eq!(class_properties(&dump, "Derived", 2), vec!["X".to_string()]);
}

#[test]
fn default_metadata_is_other_and_writable() {
    let meta = PropMeta::default();
    assert_eq!(meta.category, "Other");
    assert!(!meta.read_only);
    assert_eq!((meta.layout_order, meta.security_level), (0, 2));
}
