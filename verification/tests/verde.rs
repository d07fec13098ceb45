use broker::api::{ApiDump, ClassEntry, PropMeta};
use broker::protocol::handshake::Handshake;
use broker::protocol::operation::{EnumEntry, EnumFamily, NamedValue, OpResult, Operation, Reads};
use broker::protocol::value::DomValue;
use broker::query::{query_has_token, query_is_control};
use broker::verde::render::{describe_enum, is_hidden_property, property_metadata};
use broker::verde::translate::{
    attribute_default, fill_property_list, lower_operation, reference_ids, relay_failure_result, RawOperation,
    RelayFailure,
};

#[test]
fn parses_operations_into_generic_ops() {
    assert_eq!(
        lower_operation(RawOperation::RenameInstance { node_id: "n".into(), new_name: "X".into() }),
        Some(Operation::Rename { node: "n".into(), name: "X".into() }),
    );
    // add_attribute folds into SetAttribute with the type default.
    assert_eq!(
        lower_operation(RawOperation::AddAttribute {
            node_id: "n".into(),
            attribute_name: "S".into(),
            attribute_type: "number".into()
        }),
        Some(Operation::SetAttribute { node: "n".into(), name: "S".into(), value: DomValue::Float(0.0f64.to_bits()) }),
    );
    assert_eq!(
        lower_operation(RawOperation::RunCode { code: "print(1)".into() }),
        Some(Operation::RunCode { source: "print(1)".into() }),
    );
    assert_eq!(
        lower_operation(RawOperation::AddAttribute {
            node_id: "n".into(),
            attribute_name: "S".into(),
            attribute_type: "Vector3".into()
        }),
        None
    );
}

#[test]
fn attribute_defaults_follow_the_type_name() {
    assert_eq!(attribute_default("string"), Some(DomValue::String(String::new())));
    assert_eq!(attribute_default("boolean"), Some(DomValue::Bool(false)));
    assert_eq!(attribute_default("number"), Some(DomValue::Float(0)));
    assert_eq!(attribute_default("table"), None);
}

#[test]
fn failed_relays_are_answered_with_their_codes() {
    assert_eq!(relay_failure_result(RelayFailure::Unsupported), OpResult::Failed("unsupported_operation".into()));
    assert_eq!(relay_failure_result(RelayFailure::NoSession), OpResult::Failed("no_session".into()));
    assert_eq!(relay_failure_result(RelayFailure::SessionEnded), OpResult::Failed("session_ended".into()));
    assert_eq!(relay_failure_result(RelayFailure::Timeout), OpResult::Failed("timeout".into()));
}

#[test]
fn reads_yield_the_ids_they_reference() {
    let reads = Reads {
        properties: vec![
            NamedValue { name: "Value".into(), value: DomValue::Ref("target".into()) },
            NamedValue { name: "Anchored".into(), value: DomValue::Bool(true) },
            NamedValue { name: "Other".into(), value: DomValue::Ref("second".into()) },
        ],
        tags: vec![],
        attributes: vec![],
    };
    assert_eq!(reference_ids(&OpResult::Reads(reads)), vec!["target".to_string(), "second".to_string()]);
    assert!(reference_ids(&OpResult::Done).is_empty());
}

fn dump() -> ApiDump {
    let meta = |category: &str, level: u8| PropMeta { category: category.into(), read_only: false, layout_order: 3, security_level: level };
    ApiDump::new(vec![
        ClassEntry { name: "Instance".into(), superclass: None, properties: vec![("Name".into(), meta("Data", 0))] },
        ClassEntry {
            name: "Part".into(),
            superclass: Some("Instance".into()),
            properties: vec![("Anchored".into(), meta("Behavior", 0)), ("Secret".into(), meta("Data", 4))],
        },
    ])
    .unwrap()
}

#[test]
fn get_properties_is_filled_from_the_dump() {
    let filled = fill_property_list(
        Operation::GetProperties { node: "n".into(), properties: vec![] },
        Some("Part"),
        &dump(),
        2,
    );
    assert_eq!(
        filled,
        Operation::GetProperties { node: "n".into(), properties: vec!["Anchored".into(), "Name".into()] }
    );
    let other = fill_property_list(Operation::Delete { node: "n".into() }, Some("Part"), &dump(), 2);
    assert_eq!(other, Operation::Delete { node: "n".into() });
}

#[test]
fn properties_carry_metadata_from_the_api_dump() {
    let meta = property_metadata(&dump(), Some("Part"), "Anchored");
    assert_ne!(meta.category, "Other", "a known property gets its real category");
    assert!(!meta.read_only, "Anchored is editable");
    assert_eq!(meta.layout_order, 3);
    let unknown = property_metadata(&dump(), Some("Part"), "Nope");
    assert_eq!(unknown, PropMeta::default());
    assert!(is_hidden_property(&"Parent".to_string()));
    assert!(!is_hidden_property(&"Anchored".to_string()));
}

#[test]
fn enum_values_are_described_against_the_catalog() {
    let catalog = vec![EnumFamily {
        name: "Material".into(),
        items: vec![EnumEntry { name: "Plastic".into(), value: 256 }, EnumEntry { name: "Wood".into(), value: 512 }],
    }];
    let rendering = describe_enum(0, 512, &catalog).unwrap();
    assert_eq!((rendering.family_name.as_str(), rendering.value, rendering.name.as_str()), ("Material", 512, "Wood"));
    assert_eq!(rendering.options.len(), 2);
    assert_eq!(describe_enum(0, 7, &catalog).unwrap().name, "");
    assert!(describe_enum(1, 0, &catalog).is_none());
    assert_eq!(catalog[0].item(256).map(|e| e.name.as_str()), Some("Plastic"));
    assert!(catalog[0].item(1).is_none());
}

#[test]
fn tokens_are_hex_of_their_bytes() {
    assert_eq!(Handshake::token_from_bytes(&[0x00, 0xab, 0x10]), "00ab10");
    let handshake = Handshake::generate(4000);
    assert_eq!(handshake.port, 4000);
    assert_eq!(handshake.token.len(), 64);
    assert!(handshake.token.chars().all(|c| c.is_ascii_hexdigit() && !c.is_ascii_uppercase()));
    assert_ne!(Handshake::generate(4000).token, handshake.token, "tokens are fresh");
}

#[test]
fn queries_authenticate_by_exact_token_pieces() {
    assert!(query_has_token("token=abc", "abc"));
    assert!(query_has_token("control=1&token=abc", "abc"));
    assert!(!query_has_token("token=abcd", "abc"));
    assert!(!query_has_token("xtoken=abc", "abc"));
    assert!(!query_has_token("", "abc"));
    assert!(query_is_control("token=abc&control=1"));
    assert!(!query_is_control("control=10"));
}
