//! What a verde connection does with each thing that happens while it serves a
//! session: the decisions of its event loop, apart from the waiting.

use vstd::prelude::*;

use crate::verde::explorer::Served;

verus! {

/// One thing that happened while serving verde a session.
#[derive(Debug, Clone, Copy, PartialEq, Eq, Structural)]
pub enum ServeEvent {
    /// No frame arrived within the idle limit (verde acks every second).
    Idle,
    /// The socket ended.
    SocketEnded,
    /// Reading the socket failed.
    ReadFailed,
    /// verde sent a close frame.
    CloseFrame,
    /// verde sent a ping.
    Ping,
    /// verde sent a text frame.
    Text,
    /// verde sent some other frame.
    OtherFrame,
    /// The active session changed.
    SessionChanged,
    /// The session store went away.
    SessionsGone,
    /// The mirror changed.
    MirrorChanged,
    /// The change feed dropped changes this connection had not read yet.
    ChangesLagged,
    /// The change feed closed.
    ChangesClosed,
    /// The flush delay elapsed.
    FlushDue,
    /// A relayed operation finished; whether its reads reference instances.
    OperationDone { references: bool },
}

/// What the connection does about it.
#[derive(Debug, Clone, Copy, PartialEq, Eq, Structural)]
pub enum ServeAction {
    /// Stop serving, for the given reason.
    Stop(Served),
    /// Stop serving and report the read error.
    Fail,
    /// Answer the ping with a pong.
    Pong,
    /// Decode the frame as a verde message and carry it out.
    Handle,
    /// Nothing.
    Ignore,
    /// Fold the change into buffered edits.
    Translate,
    /// Drop buffered edits and send the whole mirror.
    Resync,
    /// Send the buffered edits and disarm the flush delay.
    Flush,
    /// Send the operation's result; first, when `reveal` is set, reveal the
    /// referenced instances in verde's tree and flush what that buffered.
    Answer { reveal: bool },
}

/// The decision for each event.
pub open spec fn spec_serve_step(event: ServeEvent) -> ServeAction {
    match event {
        ServeEvent::Idle => ServeAction::Stop(Served::Closed),
        ServeEvent::SocketEnded => ServeAction::Stop(Served::Closed),
        ServeEvent::ReadFailed => ServeAction::Fail,
        ServeEvent::CloseFrame => ServeAction::Stop(Served::Closed),
        ServeEvent::Ping => ServeAction::Pong,
        ServeEvent::Text => ServeAction::Handle,
        ServeEvent::OtherFrame => ServeAction::Ignore,
        ServeEvent::SessionChanged => ServeAction::Stop(Served::Switched),
        ServeEvent::SessionsGone => ServeAction::Stop(Served::Closed),
        ServeEvent::MirrorChanged => ServeAction::Translate,
        ServeEvent::ChangesLagged => ServeAction::Resync,
        ServeEvent::ChangesClosed => ServeAction::Stop(Served::Closed),
        ServeEvent::FlushDue => ServeAction::Flush,
        ServeEvent::OperationDone { references } => ServeAction::Answer { reveal: references },
    }
}

/// Decide what to do about one event while serving a session.
pub fn serve_step(event: ServeEvent) -> (r: ServeAction)
    ensures
        r == spec_serve_step(event),
{
    match event {
        ServeEvent::Idle => ServeAction::Stop(Served::Closed),
        ServeEvent::SocketEnded => ServeAction::Stop(Served::Closed),
        ServeEvent::ReadFailed => ServeAction::Fail,
        ServeEvent::CloseFrame => ServeAction::Stop(Served::Closed),
        ServeEvent::Ping => ServeAction::Pong,
        ServeEvent::Text => ServeAction::Handle,
        ServeEvent::OtherFrame => ServeAction::Ignore,
        ServeEvent::SessionChanged => ServeAction::Stop(Served::Switched),
        ServeEvent::SessionsGone => ServeAction::Stop(Served::Closed),
        ServeEvent::MirrorChanged => ServeAction::Translate,
        ServeEvent::ChangesLagged => ServeAction::Resync,
        ServeEvent::ChangesClosed => ServeAction::Stop(Served::Closed),
        ServeEvent::FlushDue => ServeAction::Flush,
        ServeEvent::OperationDone { references } => ServeAction::Answer { reveal: references },
    }
}

/// Whether to arm the flush delay before waiting: edits are buffered and no
/// delay is armed yet, so a burst of changes goes out as one delta.
pub fn should_arm_flush(armed: bool, buffered: bool) -> (r: bool)
    ensures
        r == (!armed && buffered),
{
    !armed && buffered
}

/// A connection stops only when the socket or the session goes away, and
/// moves on to a new session only when the active one changed.
pub proof fn lemma_serving_stops_only_when_gone(event: ServeEvent)
    ensures
        spec_serve_step(event) == ServeAction::Stop(Served::Switched) <==> event == ServeEvent::SessionChanged,
        (spec_serve_step(event) is Stop || spec_serve_step(event) is Fail) <==> (event == ServeEvent::Idle
            || event == ServeEvent::SocketEnded || event == ServeEvent::ReadFailed || event == ServeEvent::CloseFrame
            || event == ServeEvent::SessionChanged || event == ServeEvent::SessionsGone
            || event == ServeEvent::ChangesClosed),
{
}

} // verus!
