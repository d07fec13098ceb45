use broker::cli::{RunArgs, SecurityLevel};
use broker::protocol::handshake::Handshake;
use broker::history::History;
use broker::mirror::{DomRequest, OwnedSink};
use broker::protocol::dom::DomPatch;
use broker::protocol::messages::{ClientMessage, ServerMessage, SessionId};
use broker::protocol::operation::{OpResult, Operation};
use broker::session::{dom_request_message, Handled, PostHandle, SessionCore};
use broker::sessions::{SessionError, SessionSlot, SessionsHolder};
use broker::upstream::{ProbeNotice, ProbeState, Upstream, Wanted};

fn slot(id: u32) -> SessionSlot<&'static str> {
    SessionSlot { id: SessionId(id), username: None, peer: format!("127.0.0.1:{id}"), security_level: 2, session: "s" }
}

#[test]
fn security_tiers_have_distinct_ordinals_defaulting_to_local_user() {
    let ordinals: Vec<u8> = [
        SecurityLevel::Unrestricted,
        SecurityLevel::Plugin,
        SecurityLevel::LocalUser,
        SecurityLevel::RobloxScript,
        SecurityLevel::Roblox,
    ]
    .iter()
    .map(|level| level.ordinal())
    .collect();
    assert_eq!(ordinals, vec![0, 1, 2, 3, 4]);
    assert_eq!(SecurityLevel::default().ordinal(), 2);
}

#[test]
fn upstreams_only_activate_while_a_session_exists() {
    let mut wanted = Wanted::new(true, false);
    // Wanted, but no sessions yet.
    assert!(!wanted.active(Upstream::Verde));

    wanted.add_session();
    assert!(wanted.active(Upstream::Verde));
    assert!(!wanted.active(Upstream::LuauLsp));

    // Toggling while a session is active applies immediately.
    wanted.set(Upstream::LuauLsp, true);
    assert!(wanted.active(Upstream::LuauLsp));
    wanted.set(Upstream::Verde, false);
    assert!(!wanted.active(Upstream::Verde));
    wanted.set(Upstream::Verde, true);

    // Still one session left: stays active.
    wanted.add_session();
    wanted.drop_session();
    assert!(wanted.active(Upstream::Verde));

    // Last session gone: everything deactivates, wanted state kept.
    wanted.drop_session();
    assert!(!wanted.active(Upstream::Verde));
    assert!(!wanted.active(Upstream::LuauLsp));

    // A new session restores the wanted state.
    wanted.add_session();
    assert!(wanted.active(Upstream::Verde));
    assert!(wanted.active(Upstream::LuauLsp));
}

#[test]
fn the_session_store_tracks_the_active_session() {
    let mut holder: SessionsHolder<&str> = SessionsHolder::new();
    assert_eq!(holder.current_session_id(), None);
    holder.insert(slot(1));
    holder.insert(slot(2));
    assert!(holder.find(SessionId(2)).is_some());
    assert!(holder.find(SessionId(3)).is_none());

    assert_eq!(holder.set_current(Some(SessionId(2))), Ok(Some(SessionId(2))));
    assert_eq!(holder.current().map(|s| s.id), Some(SessionId(2)));
    assert_eq!(holder.set_current(Some(SessionId(9))), Err(SessionError::InvalidId));
    assert_eq!(holder.current_session_id(), Some(SessionId(2)));

    let list = holder.list();
    assert_eq!(list.len(), 2);
    assert!(list.iter().any(|info| info.id == SessionId(2) && info.active));
    assert!(list.iter().any(|info| info.id == SessionId(1) && !info.active));

    assert!(holder.remove(SessionId(1)).is_some());
    assert!(holder.remove(SessionId(1)).is_none());
    assert_eq!(holder.list().len(), 1);
    assert_eq!(holder.set_current(None), Ok(None));
    assert!(holder.current().is_none());
}

#[test]
fn operations_are_correlated_with_their_results() {
    let mut core: SessionCore<&str> = SessionCore::new(SessionId(7));
    let message = core.dispatch_operation(Operation::Delete { node: "n".into() }, "first");
    assert!(matches!(message, ServerMessage::Operation { id: 0, .. }));
    let second = core.dispatch_operation(Operation::RunCode { source: "print(1)".into() }, "second");
    assert!(matches!(second, ServerMessage::Operation { id: 1, .. }));

    match core.handle(ClientMessage::OperationResult { id: 1, result: OpResult::Done }) {
        Handled::Deliver { id, reply, result } => {
            assert_eq!((id, reply, result), (1, "second", OpResult::Done));
        }
        other => panic!("unexpected {other:?}"),
    }
    // A second result for the same id is unknown now.
    assert!(matches!(core.handle(ClientMessage::OperationResult { id: 1, result: OpResult::Done }), Handled::UnknownResult(1)));
    assert!(matches!(core.handle(ClientMessage::RequestActive), Handled::Post(PostHandle::Activate(SessionId(7)))));
    assert!(matches!(core.handle(ClientMessage::ListSessions), Handled::IgnoreControl));
    assert!(matches!(core.handle(ClientMessage::Shutdown), Handled::Shutdown));
    assert!(matches!(
        core.handle(ClientMessage::UpdateDom(DomPatch { upserts: vec![], removals: vec![], updates: vec![] })),
        Handled::ApplyPatch(_)
    ));
    match core.handle(ClientMessage::SetUpstream { upstream: Upstream::Verde, enabled: false }) {
        Handled::SetUpstream { reply, .. } => {
            assert!(matches!(reply, ServerMessage::UpstreamChanged { upstream: Upstream::Verde, enabled: false }));
        }
        other => panic!("unexpected {other:?}"),
    }
    assert_eq!(ClientMessage::ListSessions.kind(), "list-sessions");
}

#[test]
fn dom_requests_reach_the_installed_sink_until_cleared() {
    let mut sink: OwnedSink<&str> = OwnedSink::new();
    assert!(sink.sink().is_none(), "no sink before a session installs one");
    sink.install(1, "session one");
    assert_eq!(sink.sink(), Some(&"session one"));

    // A different owner's clear is ignored; only the holder's takes effect.
    sink.clear(2);
    assert!(sink.sink().is_some(), "another owner cannot clear the sink");
    sink.clear(1);
    assert!(sink.sink().is_none(), "the holder clears its own sink");

    assert!(matches!(dom_request_message(DomRequest::Children(None)), ServerMessage::RequestChildren(None)));
}

#[test]
fn history_forgets_the_oldest_entries_and_groups_runs() {
    let mut history: History<u32> = History::new(3);
    history.push(SessionId(1), 10);
    history.push(SessionId(1), 11);
    history.push(SessionId(2), 20);
    history.push(SessionId(1), 12);
    assert_eq!(history.len(), 3);
    assert_eq!(history.batches(), vec![(SessionId(1), vec![11]), (SessionId(2), vec![20]), (SessionId(1), vec![12])]);
    assert_eq!(history.clear(), 3);
    assert_eq!(history.len(), 0);
    assert!(history.batches().is_empty());
}

#[test]
fn security_tiers_round_trip_through_ordinals_and_have_names() {
    let tiers = [
        SecurityLevel::Unrestricted,
        SecurityLevel::Plugin,
        SecurityLevel::LocalUser,
        SecurityLevel::RobloxScript,
        SecurityLevel::Roblox,
    ];
    for tier in tiers {
        assert_eq!(SecurityLevel::from_ordinal(tier.ordinal()), tier);
    }
    assert_eq!(SecurityLevel::from_ordinal(200), SecurityLevel::Roblox);
    let names: Vec<&str> = tiers.iter().map(|t| t.as_str()).collect();
    assert_eq!(names, vec!["none", "plugin", "local-user", "roblox-script", "roblox"]);
}

#[test]
fn a_running_broker_is_reused_only_when_nothing_pins_it_elsewhere() {
    let running = Handshake { port: 4000, token: "abc".to_string() };
    let mut args = RunArgs::default();
    assert!(!args.pinned_elsewhere(&running));
    args.port = 4000;
    assert!(!args.pinned_elsewhere(&running));
    args.port = 4001;
    assert!(args.pinned_elsewhere(&running));
    args.port = 0;
    args.token = Some("abc".to_string());
    assert!(!args.pinned_elsewhere(&running));
    args.token = Some("abd".to_string());
    assert!(args.pinned_elsewhere(&running));
}

#[test]
fn probes_report_changes_and_unreachability_once() {
    let mut probe = ProbeState::default();
    assert_eq!(probe.observe(false), ProbeNotice::Unreachable);
    assert_eq!(probe.observe(false), ProbeNotice::Quiet);
    assert_eq!(probe.observe(false), ProbeNotice::Quiet);
    assert_eq!(probe.observe(true), ProbeNotice::Reachable);
    assert_eq!(probe.observe(true), ProbeNotice::Quiet);
    assert_eq!(probe.observe(false), ProbeNotice::Lost);
    assert_eq!(probe.observe(false), ProbeNotice::Unreachable);
    assert_eq!(probe.observe(false), ProbeNotice::Quiet);
}
