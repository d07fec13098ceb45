use vstd::prelude::*;

verus! {

/// Port of verde's WebSocket server the broker connects to by default.
pub const VERDE_DEFAULT_PORT: u16 = 9000;

/// Port of the luau-lsp studio plugin server the broker probes by default.
pub const LUAU_LSP_DEFAULT_PORT: u16 = 3667;

/// The local tools the broker maintains outbound connections to.
#[derive(Debug, Clone, Copy, PartialEq, Eq, Structural)]
pub enum Upstream {
    Verde,
    LuauLsp,
}

/// The switch states as set by flags and clients, with the number of client
/// sessions alive; an upstream runs only while its switch is on and at least
/// one session exists.
#[derive(Debug, Clone, Copy, PartialEq, Eq, Structural)]
pub struct Wanted {
    pub sessions: usize,
    pub verde: bool,
    pub luau_lsp: bool,
}

/// Whether the switch for `upstream` is on.
pub open spec fn spec_switch(w: Wanted, upstream: Upstream) -> bool {
    match upstream {
        Upstream::Verde => w.verde,
        Upstream::LuauLsp => w.luau_lsp,
    }
}

/// Whether the task for `upstream` should be running.
pub open spec fn spec_active(w: Wanted, upstream: Upstream) -> bool {
    w.sessions > 0 && spec_switch(w, upstream)
}

impl Wanted {
    /// The starting switches, with no client sessions yet.
    pub fn new(verde: bool, luau_lsp: bool) -> (r: Self)
        ensures
            r == (Wanted { sessions: 0, verde, luau_lsp }),
    {
        Wanted { sessions: 0, verde, luau_lsp }
    }

    /// Turn one upstream's switch on or off, leaving everything else alone.
    pub fn set(&mut self, upstream: Upstream, enabled: bool)
        ensures
            final(self).sessions == old(self).sessions,
            spec_switch(*final(self), upstream) == enabled,
            forall|other: Upstream|
                other != upstream ==> spec_switch(*final(self), other) == spec_switch(
                    *old(self),
                    other,
                ),
    {
        match upstream {
            Upstream::Verde => self.verde = enabled,
            Upstream::LuauLsp => self.luau_lsp = enabled,
        }
    }

    /// Count one more client session.
    pub fn add_session(&mut self)
        requires
            old(self).sessions < usize::MAX,
        ensures
            *final(self) == (Wanted { sessions: (old(self).sessions + 1) as usize, ..*old(self) }),
    {
        self.sessions = self.sessions + 1;
    }

    /// Stop counting one client session.
    pub fn drop_session(&mut self)
        requires
            old(self).sessions > 0,
        ensures
            *final(self) == (Wanted { sessions: (old(self).sessions - 1) as usize, ..*old(self) }),
    {
        self.sessions = self.sessions - 1;
    }

    /// Whether the task for `upstream` should run: its switch is on and at
    /// least one client session is alive.
    pub fn active(&self, upstream: Upstream) -> (r: bool)
        ensures
            r == spec_active(*self, upstream),
    {
        let on = match upstream {
            Upstream::Verde => self.verde,
            Upstream::LuauLsp => self.luau_lsp,
        };
        self.sessions > 0 && on
    }
}

/// Sessions come and go without touching the switches: once the last session
/// is gone every upstream is inactive, and a new session restores exactly the
/// switches that were wanted.
pub proof fn lemma_sessions_gate_the_switches(w: Wanted, upstream: Upstream)
    ensures
        !spec_active(Wanted { sessions: 0, ..w }, upstream),
        spec_active(Wanted { sessions: 1, ..w }, upstream) == spec_switch(w, upstream),
{
}

/// What a probe of an upstream has to report, if anything.
#[derive(Debug, Clone, Copy, PartialEq, Eq, Structural)]
pub enum ProbeNotice {
    /// Nothing new.
    Quiet,
    /// The upstream became reachable.
    Reachable,
    /// A reachable upstream went away.
    Lost,
    /// The upstream is not reachable (reported once until it is).
    Unreachable,
}

/// What a probe loop remembers between attempts.
#[derive(Debug, Clone, Copy, PartialEq, Eq, Structural, Default)]
pub struct ProbeState {
    /// Whether the last attempt reached the upstream.
    pub reachable: bool,
    /// Whether being unreachable has been reported since it last was.
    pub warned: bool,
}

/// The state after an attempt, and what it reports.
pub open spec fn spec_probe(state: ProbeState, connected: bool) -> (ProbeState, ProbeNotice) {
    if connected {
        (
            ProbeState { reachable: true, warned: false },
            if state.reachable {
                ProbeNotice::Quiet
            } else {
                ProbeNotice::Reachable
            },
        )
    } else {
        let notice = if state.reachable {
            ProbeNotice::Lost
        } else if !state.warned {
            ProbeNotice::Unreachable
        } else {
            ProbeNotice::Quiet
        };
        (
            ProbeState { reachable: false, warned: state.warned || (!state.reachable) },
            notice,
        )
    }
}

impl ProbeState {
    /// Record one attempt: reaching the upstream is reported when it was not
    /// reachable before, losing it when it was, and failing to reach it only
    /// once until it is reached again.
    pub fn observe(&mut self, connected: bool) -> (r: ProbeNotice)
        ensures
            (*final(self), r) == spec_probe(*old(self), connected),
    {
        if connected {
            let notice = if self.reachable {
                ProbeNotice::Quiet
            } else {
                ProbeNotice::Reachable
            };
            self.reachable = true;
            self.warned = false;
            notice
        } else {
            let notice = if self.reachable {
                ProbeNotice::Lost
            } else if !self.warned {
                ProbeNotice::Unreachable
            } else {
                ProbeNotice::Quiet
            };
            if !self.reachable {
                self.warned = true;
            }
            self.reachable = false;
            notice
        }
    }
}

/// Once an unreachable upstream has been reported, further failed attempts are
/// quiet until it is reached again.
pub proof fn lemma_unreachable_reported_once(state: ProbeState)
    requires
        spec_probe(state, false).1 == ProbeNotice::Unreachable,
    ensures
        spec_probe(spec_probe(state, false).0, false).1 == ProbeNotice::Quiet,
{
}

} // verus!
