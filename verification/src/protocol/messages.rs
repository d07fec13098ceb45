use vstd::prelude::*;

use crate::protocol::dom::DomPatch;
use crate::protocol::operation::{EnumFamily, OpResult, Operation};
use crate::protocol::value::DomId;
use crate::upstream::Upstream;

verus! {

/// A connected client session's identity.
#[derive(Copy, Clone, Debug, Default, PartialEq, Eq, Hash, PartialOrd, Ord, Structural)]
pub struct SessionId(pub u32);

/// Every message a client can send the broker.
#[derive(Debug, Clone)]
pub enum ClientMessage {
    /// Ask the broker to shut itself down gracefully.
    Shutdown,
    /// Enable or disable the broker's connection to an upstream tool.
    SetUpstream { upstream: Upstream, enabled: bool },
    /// Apply an incremental DOM patch to the session's mirror.
    UpdateDom(DomPatch),
    /// The client's enum catalog (each family with its items), sent once on connect.
    EnumFamilies(Vec<EnumFamily>),
    /// The result of applying a relayed [`ServerMessage::Operation`].
    OperationResult { id: u32, result: OpResult },
    /// Ask the broker to make *this* client the active (forwarded) session.
    RequestActive,
    /// Control-only: make the session with the given id active.
    SwapActive(SessionId),
    /// Control-only: ask for the connected-session list.
    ListSessions,
}

/// The short name of a client message, for logging.
pub open spec fn spec_client_kind(message: ClientMessage) -> Seq<char> {
    match message {
        ClientMessage::Shutdown => "shutdown"@,
        ClientMessage::SetUpstream { .. } => "set-upstream"@,
        ClientMessage::UpdateDom(..) => "update-dom"@,
        ClientMessage::EnumFamilies(..) => "enum-families"@,
        ClientMessage::OperationResult { .. } => "operation-result"@,
        ClientMessage::RequestActive => "request-active"@,
        ClientMessage::SwapActive(..) => "swap-active"@,
        ClientMessage::ListSessions => "list-sessions"@,
    }
}

impl ClientMessage {
    /// The message's short name, for logging.
    pub fn kind(&self) -> (r: &'static str)
        ensures
            r@ == spec_client_kind(*self),
    {
        match self {
            ClientMessage::Shutdown => "shutdown",
            ClientMessage::SetUpstream { .. } => "set-upstream",
            ClientMessage::UpdateDom(..) => "update-dom",
            ClientMessage::EnumFamilies(..) => "enum-families",
            ClientMessage::OperationResult { .. } => "operation-result",
            ClientMessage::RequestActive => "request-active",
            ClientMessage::SwapActive(..) => "swap-active",
            ClientMessage::ListSessions => "list-sessions",
        }
    }
}

/// Every message the broker sends a client.
#[derive(Debug, Clone)]
pub enum ServerMessage {
    /// Greet a client whose connection was just accepted.
    Hello,
    /// Confirm that an upstream connection was enabled or disabled.
    UpstreamChanged { upstream: Upstream, enabled: bool },
    /// Ask the client to mirror a node's immediate children (`None`: the top level).
    RequestChildren(Option<DomId>),
    /// Ask the client to mirror a single node by id, without its children.
    RequestNode(DomId),
    /// Ask the client to snapshot a subtree by id, or the whole scope when `None`.
    RequestSnapshot(Option<DomId>),
    /// Ask the client to search `from`'s descendants for names containing `query`.
    Search { from: DomId, query: String },
    /// Ask the client to mirror several single nodes by id, in one patch.
    RequestNodes(Vec<DomId>),
    /// Relay an operation for the client to apply, `id` correlating its result.
    Operation { id: u32, op: Operation },
    /// The connected sessions and which one is active (control connections only).
    Sessions(Vec<SessionInfo>),
    /// CONTROL: a new session was added.
    NewSession(SessionInfo),
    /// CONTROL: a session has been removed.
    RemoveSession(SessionId),
    /// CONTROL: a batch of console output relayed from a session.
    SessionLog { id: SessionId, entries: Vec<LogEntry> },
    /// CONTROL: the outcome of a run request.
    RunResult { session: SessionId, request: u32, result: OpResult },
}

/// One connected client session as reported to the `sessions` command.
#[derive(Debug, Clone, PartialEq, Eq)]
pub struct SessionInfo {
    pub id: SessionId,
    pub username: Option<String>,
    pub peer: String,
    pub active: bool,
    pub security_level: u8,
}

/// The severity of one relayed console line.
#[derive(Debug, Clone, Copy, PartialEq, Eq, Structural)]
pub enum LogLevel {
    Print,
    Info,
    Warn,
    Error,
}

/// One line of a client's console output.
#[derive(Debug, Clone, PartialEq, Eq)]
pub struct LogEntry {
    pub level: LogLevel,
    pub content: String,
}

} // verus!
