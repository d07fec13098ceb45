use vstd::prelude::*;

use crate::api::{chain, class_properties, collect_visible, ApiDump};
use crate::protocol::operation::{OpResult, Operation, NamedValue};
use crate::protocol::value::{DomId, DomValue};

verus! {

/// A verde `operation` object as verde sends it (`type`-tagged, verde's field
/// names), with any value already read into a [`DomValue`].
#[derive(Debug, Clone, PartialEq)]
pub enum RawOperation {
    RenameInstance { node_id: String, new_name: String },
    DeleteInstance { node_id: String },
    /// An absent / null `newParentId` is a detach.
    MoveNode { node_id: String, new_parent_id: Option<String> },
    CreateInstance { parent_id: String, class_name: String },
    AddTag { node_id: String, tag_name: String },
    RemoveTag { node_id: String, tag_name: String },
    SetProperty { node_id: String, property_name: String, property_value: DomValue },
    SetAttribute { node_id: String, attribute_name: String, attribute_value: DomValue },
    AddAttribute { node_id: String, attribute_name: String, attribute_type: String },
    RemoveAttribute { node_id: String, attribute_name: String },
    RenameAttribute { node_id: String, old_name: String, new_name: String },
    GetProperties { node_id: String },
    RunCode { code: String },
}

/// The empty string value.
pub open spec fn is_empty_string(value: DomValue) -> bool {
    value matches DomValue::String(s) && s@ == Seq::<char>::empty()
}

/// The default value for a new attribute of verde's `attributeType`: an empty
/// string, the number zero, or `false`; `None` for any other type name.
pub fn attribute_default(kind: &str) -> (r: Option<DomValue>)
    ensures
        kind@ == "string"@ ==> r is Some && is_empty_string(r->0),
        kind@ == "number"@ ==> r == Some(DomValue::Float(0)),
        kind@ == "boolean"@ ==> r == Some(DomValue::Bool(false)),
        kind@ != "string"@ && kind@ != "number"@ && kind@ != "boolean"@ ==> r is None,
{
    proof {
        reveal_strlit("string");
        reveal_strlit("number");
        reveal_strlit("boolean");
        assert("number"@[0] != "string"@[0]);
        assert("boolean"@[0] != "string"@[0]);
        assert("boolean"@[0] != "number"@[0]);
    }
    let kind = kind.to_owned();
    if kind == String::from_str("string") {
        Some(DomValue::String(String::new()))
    } else if kind == String::from_str("number") {
        // The bit pattern of `0.0f64`.
        Some(DomValue::Float(0))
    } else if kind == String::from_str("boolean") {
        Some(DomValue::Bool(false))
    } else {
        None
    }
}

/// Lower a parsed verde operation to the generic [`Operation`]. Total except
/// for `add_attribute`, whose type name may name no known default; the
/// property list of `get_properties` is left empty for the broker to fill.
pub fn lower_operation(raw: RawOperation) -> (r: Option<Operation>)
    ensures
        match raw {
            RawOperation::RenameInstance { node_id, new_name } => r == Some(
                Operation::Rename { node: node_id, name: new_name },
            ),
            RawOperation::DeleteInstance { node_id } => r == Some(Operation::Delete { node: node_id }),
            RawOperation::MoveNode { node_id, new_parent_id } => r == Some(
                Operation::Move { node: node_id, parent: new_parent_id },
            ),
            RawOperation::CreateInstance { parent_id, class_name } => r == Some(
                Operation::Create { parent: parent_id, class: class_name },
            ),
            RawOperation::AddTag { node_id, tag_name } => r == Some(
                Operation::AddTag { node: node_id, tag: tag_name },
            ),
            RawOperation::RemoveTag { node_id, tag_name } => r == Some(
                Operation::RemoveTag { node: node_id, tag: tag_name },
            ),
            RawOperation::SetProperty { node_id, property_name, property_value } => r == Some(
                Operation::SetProperty { node: node_id, name: property_name, value: property_value },
            ),
            RawOperation::SetAttribute { node_id, attribute_name, attribute_value } => r == Some(
                Operation::SetAttribute {
                    node: node_id,
                    name: attribute_name,
                    value: attribute_value,
                },
            ),
            RawOperation::AddAttribute { node_id, attribute_name, attribute_type } => {
                let t = attribute_type@;
                if t == "string"@ || t == "number"@ || t == "boolean"@ {
                    r matches Some(Operation::SetAttribute { node, name, value }) && node == node_id
                        && name == attribute_name && (t == "string"@ ==> is_empty_string(value)) && (t == "number"@ ==> value == DomValue::Float(0))
                        && (t == "boolean"@ ==> value == DomValue::Bool(false))
                } else {
                    r is None
                }
            },
            RawOperation::RemoveAttribute { node_id, attribute_name } => r == Some(
                Operation::RemoveAttribute { node: node_id, name: attribute_name },
            ),
            RawOperation::RenameAttribute { node_id, old_name, new_name } => r == Some(
                Operation::RenameAttribute { node: node_id, old: old_name, new: new_name },
            ),
            RawOperation::GetProperties { node_id } => r matches Some(
                Operation::GetProperties { node, properties },
            ) && node == node_id && properties@ == Seq::<String>::empty(),
            RawOperation::RunCode { code } => r == Some(Operation::RunCode { source: code }),
        },
{
    match raw {
        RawOperation::RenameInstance { node_id, new_name } => Some(
            Operation::Rename { node: node_id, name: new_name },
        ),
        RawOperation::DeleteInstance { node_id } => Some(Operation::Delete { node: node_id }),
        RawOperation::MoveNode { node_id, new_parent_id } => Some(
            Operation::Move { node: node_id, parent: new_parent_id },
        ),
        RawOperation::CreateInstance { parent_id, class_name } => Some(
            Operation::Create { parent: parent_id, class: class_name },
        ),
        RawOperation::AddTag { node_id, tag_name } => Some(
            Operation::AddTag { node: node_id, tag: tag_name },
        ),
        RawOperation::RemoveTag { node_id, tag_name } => Some(
            Operation::RemoveTag { node: node_id, tag: tag_name },
        ),
        RawOperation::SetProperty { node_id, property_name, property_value } => Some(
            Operation::SetProperty { node: node_id, name: property_name, value: property_value },
        ),
        RawOperation::SetAttribute { node_id, attribute_name, attribute_value } => Some(
            Operation::SetAttribute { node: node_id, name: attribute_name, value: attribute_value },
        ),
        RawOperation::AddAttribute { node_id, attribute_name, attribute_type } => {
            match attribute_default(attribute_type.as_str()) {
                Some(value) => Some(
                    Operation::SetAttribute { node: node_id, name: attribute_name, value },
                ),
                None => None,
            }
        },
        RawOperation::RemoveAttribute { node_id, attribute_name } => Some(
            Operation::RemoveAttribute { node: node_id, name: attribute_name },
        ),
        RawOperation::RenameAttribute { node_id, old_name, new_name } => Some(
            Operation::RenameAttribute { node: node_id, old: old_name, new: new_name },
        ),
        RawOperation::GetProperties { node_id } => Some(
            Operation::GetProperties { node: node_id, properties: Vec::new() },
        ),
        RawOperation::RunCode { code } => Some(Operation::RunCode { source: code }),
    }
}

/// Why a relayed operation got no answer from a client.
#[derive(Debug, Clone, Copy, PartialEq, Eq, Structural)]
pub enum RelayFailure {
    /// The verde operation did not parse into a known operation.
    Unsupported,
    /// No client session is active to relay to.
    NoSession,
    /// The session went away before answering.
    SessionEnded,
    /// The client did not answer in time.
    Timeout,
}

/// The error code verde is answered with for a failed relay.
pub open spec fn spec_failure_code(failure: RelayFailure) -> Seq<char> {
    match failure {
        RelayFailure::Unsupported => "unsupported_operation"@,
        RelayFailure::NoSession => "no_session"@,
        RelayFailure::SessionEnded => "session_ended"@,
        RelayFailure::Timeout => "timeout"@,
    }
}

/// The result reported for a relay that got no answer from a client.
pub fn relay_failure_result(failure: RelayFailure) -> (r: OpResult)
    ensures
        r matches OpResult::Failed(code) && code@ == spec_failure_code(failure),
{
    let code = match failure {
        RelayFailure::Unsupported => "unsupported_operation",
        RelayFailure::NoSession => "no_session",
        RelayFailure::SessionEnded => "session_ended",
        RelayFailure::Timeout => "timeout",
    };
    OpResult::Failed(String::from_str(code))
}

/// The ids of the instances `reads` references, in order.
pub open spec fn spec_reference_ids(reads: Seq<NamedValue>) -> Seq<Seq<char>>
    decreases reads.len(),
{
    if reads.len() == 0 {
        Seq::empty()
    } else {
        let before = spec_reference_ids(reads.drop_last());
        match reads.last().value {
            DomValue::Ref(id) => before.push(id@),
            _ => before,
        }
    }
}

/// The ids of every instance a read's properties reference, in order — so
/// verde's tree can be primed to reveal those targets; none for other results.
pub fn reference_ids(result: &OpResult) -> (r: Vec<DomId>)
    ensures
        r@.map_values(|s: String| s@) == match result {
            OpResult::Reads(reads) => spec_reference_ids(reads.properties@),
            _ => Seq::empty(),
        },
{
    let mut out: Vec<DomId> = Vec::new();
    match result {
        OpResult::Reads(reads) => {
            let props = &reads.properties;
            let mut k: usize = 0;
            while k < props.len()
                invariant
                    k <= props@.len(),
                    out@.map_values(|s: String| s@) == spec_reference_ids(props@.take(k as int)),
                decreases props@.len() - k,
            {
                assert(props@.take(k + 1).drop_last() =~= props@.take(k as int));
                match &props[k].value {
                    DomValue::Ref(id) => {
                        out.push(id.clone());
                        assert(out@.map_values(|s: String| s@) =~= spec_reference_ids(props@.take(k as int)).push(id@));
                    },
                    _ => {},
                }
                k = k + 1;
            }
            assert(props@.take(props@.len() as int) =~= props@);
        },
        _ => {
            assert(out@.map_values(|s: String| s@) =~= Seq::<Seq<char>>::empty());
        },
    }
    out
}

/// Fill a `GetProperties` operation with the exact property list the client
/// should read: the visible properties of the node's class (when its class is
/// known), at the session's write-security threshold; any other operation is
/// left as it is.
pub fn fill_property_list(operation: Operation, class: Option<&str>, dump: &ApiDump, threshold: u8) -> (r: Operation)
    ensures
        match (operation, class) {
            (Operation::GetProperties { node, properties: _ }, Some(c)) => r matches Operation::GetProperties {
                node: n,
                properties,
            } && n == node && properties@.map_values(|s: String| s@) == collect_visible(
                dump.classes(),
                chain(dump.classes(), c@),
                threshold,
            ),
            _ => r == operation,
        },
{
    match (operation, class) {
        (Operation::GetProperties { node, properties: _ }, Some(c)) => {
            Operation::GetProperties { node, properties: class_properties(dump, c, threshold) }
        },
        (operation, _) => operation,
    }
}

} // verus!
