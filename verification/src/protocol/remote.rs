use vstd::prelude::*;

use crate::protocol::value::{DomBytes, DomId, DomValue};

verus! {

/// Which way a captured call crossed the network boundary.
#[derive(Debug, Clone, Copy, PartialEq, Eq, Structural)]
pub enum RemoteDirection {
    /// The client called the server (`FireServer`, `InvokeServer`, ...).
    Outgoing,
    /// The server called the client (`OnClientEvent`, `OnClientInvoke`, ...).
    Incoming,
}

/// A remote a call crossed, or an instance one of its arguments referenced.
#[derive(Debug, Clone, PartialEq, Eq)]
pub struct InstanceRef {
    pub id: DomId,
    pub class: String,
    pub name: String,
    /// `GetFullName()`, or the name alone when that call is blocked.
    pub path: String,
}

/// The call site a captured call came from.
#[derive(Debug, Clone, PartialEq, Eq, Default)]
pub struct CallSource {
    pub script: Option<String>,
    pub function_name: Option<String>,
    pub chunk: Option<String>,
    pub line: Option<u32>,
    /// Whether the executor's own thread made the call.
    pub is_executor: bool,
    /// The `Actor` a call was captured under, when it came from an actor VM.
    pub actor: Option<String>,
}

/// A function value, described well enough to find it.
#[derive(Debug, Clone, PartialEq, Eq, Default)]
pub struct FunctionRef {
    pub name: Option<String>,
    pub chunk: Option<String>,
    pub line: Option<u32>,
}

/// One `key -> value` pair of a captured table's hash part.
#[derive(Debug, PartialEq)]
pub struct LuaEntry {
    pub key: LuaValue,
    pub value: LuaValue,
}

/// A captured Luau table, split the way Luau stores one.
#[derive(Debug, PartialEq, Default)]
pub struct LuaTable {
    /// Per-call ordinal a [`LuaValue::Cycle`] in the same call points back at.
    pub id: u32,
    /// The contiguous `1..n` part, in order.
    pub array: Vec<LuaValue>,
    /// Everything else, in whatever order `pairs` yielded it.
    pub entries: Vec<LuaEntry>,
    /// Whether the capture caps dropped part of this table.
    pub truncated: bool,
    /// Whether the table carried a metatable, which is not captured.
    pub metatable: bool,
}

/// One argument (or return value) of a captured call.
#[derive(Debug, PartialEq)]
pub enum LuaValue {
    Nil,
    Bool(bool),
    /// An `f64` bit pattern.
    Number(u64),
    /// Arbitrary bytes: a Luau string need not be UTF-8.
    String(DomBytes),
    Table(LuaTable),
    Instance(InstanceRef),
    /// Any Roblox datatype.
    Roblox(DomValue),
    Buffer(DomBytes),
    Function(FunctionRef),
    /// A back-reference to the [`LuaTable::id`] of a table already sent.
    Cycle(u32),
    /// Anything else (`thread`, foreign userdata), by `typeof`.
    Opaque(String),
}

/// The name of a captured value's shape.
pub open spec fn spec_lua_kind(value: LuaValue) -> Seq<char> {
    match value {
        LuaValue::Nil => "nil"@,
        LuaValue::Bool(..) => "bool"@,
        LuaValue::Number(..) => "number"@,
        LuaValue::String(..) => "string"@,
        LuaValue::Table(..) => "table"@,
        LuaValue::Instance(..) => "instance"@,
        LuaValue::Roblox(..) => "roblox"@,
        LuaValue::Buffer(..) => "buffer"@,
        LuaValue::Function(..) => "function"@,
        LuaValue::Cycle(..) => "cycle"@,
        LuaValue::Opaque(..) => "opaque"@,
    }
}

impl LuaValue {
    /// The variant's name, for logging a value without dumping its payload.
    pub fn kind(&self) -> (r: &'static str)
        ensures
            r@ == spec_lua_kind(*self),
    {
        match self {
            LuaValue::Nil => "nil",
            LuaValue::Bool(..) => "bool",
            LuaValue::Number(..) => "number",
            LuaValue::String(..) => "string",
            LuaValue::Table(..) => "table",
            LuaValue::Instance(..) => "instance",
            LuaValue::Roblox(..) => "roblox",
            LuaValue::Buffer(..) => "buffer",
            LuaValue::Function(..) => "function",
            LuaValue::Cycle(..) => "cycle",
            LuaValue::Opaque(..) => "opaque",
        }
    }
}

/// One captured remote call, as the client saw it.
#[derive(Debug, PartialEq)]
pub struct RemoteCall {
    /// Per-session, monotonic.
    pub id: u32,
    pub direction: RemoteDirection,
    pub remote: InstanceRef,
    /// The method that carried it (`FireServer`, `OnClientEvent`, etc).
    pub method: String,
    pub arguments: Vec<LuaValue>,
    /// What a function answered with; `None` for events and unseen results.
    pub returns: Option<Vec<LuaValue>>,
    pub source: CallSource,
    /// The client's `os.clock()` at capture, as an `f64` bit pattern.
    pub timestamp: u64,
}

/// What the client should capture.
#[derive(Debug, Clone, Copy, PartialEq, Eq, Structural)]
pub struct SpyConfig {
    /// Whether to hook at all.
    pub enabled: bool,
    /// Capture `FireServer`/`InvokeServer` (and the bindable equivalents).
    pub outgoing: bool,
    /// Capture `OnClientEvent`/`OnClientInvoke` (and the bindable equivalents).
    pub incoming: bool,
    /// Capture `BindableEvent`/`BindableFunction` alongside the networked ones.
    pub bindables: bool,
    /// How deep to walk a table argument before truncating.
    pub max_depth: u8,
    /// How many entries of one table to capture before truncating.
    pub max_entries: u16,
    /// How many bytes of one string or buffer to capture.
    pub max_bytes: u32,
}

impl Default for SpyConfig {
    fn default() -> (r: Self)
        ensures
            r == (SpyConfig {
                enabled: false,
                outgoing: true,
                incoming: true,
                bindables: false,
                max_depth: 6,
                max_entries: 128,
                max_bytes: 4096,
            }),
    {
        SpyConfig {
            enabled: false,
            outgoing: true,
            incoming: true,
            bindables: false,
            max_depth: 6,
            max_entries: 128,
            max_bytes: 4096,
        }
    }
}

} // verus!
