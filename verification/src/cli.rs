use vstd::prelude::*;

use crate::protocol::handshake::Handshake;
use crate::upstream::{LUAU_LSP_DEFAULT_PORT, VERDE_DEFAULT_PORT};

verus! {

/// The broker's command line: which command to run, how to surface the
/// handshake, and how chatty the logs are.
#[derive(Debug)]
pub struct Cli {
    pub handshake: Option<HandshakeFormat>,
    /// Log verbosity (`-v` debug, `-vv` trace).
    pub verbose: u8,
    pub command: Option<Command>,
}

/// The broker's subcommands.
#[derive(Debug)]
pub enum Command {
    /// Run the broker daemon (the default when no subcommand is given).
    Run(RunArgs),
    /// Print details of the currently running broker, if there is one.
    Status,
    /// Stop a running broker.
    Stop(StopArgs),
    /// List the connected client sessions and which one is syncing.
    Sessions,
    /// Switch which connected client is syncing.
    Swap(SwapArgs),
}

#[derive(Debug)]
pub struct SwapArgs {
    /// Id of the session to make active.
    pub id: u32,
}

#[derive(Debug)]
pub struct RunArgs {
    /// Port to bind on loopback; `0` lets the OS pick a free port.
    pub port: u16,
    /// Port of verde's WebSocket server to (re)connect to.
    pub verde_port: u16,
    /// Port of the luau-lsp studio plugin server to (re)connect to.
    pub luau_lsp_port: u16,
    /// Fixed auth token (a fresh one is minted when omitted).
    pub token: Option<String>,
    /// Highest property write-security tier the inspector shows.
    pub security_level: SecurityLevel,
    /// Start with the verde connection disabled.
    pub no_verde: bool,
    /// Start with luau-lsp probing disabled.
    pub no_luau_lsp: bool,
}

impl Default for RunArgs {
    fn default() -> (r: Self)
        ensures
            r.port == 0,
            r.verde_port == VERDE_DEFAULT_PORT,
            r.luau_lsp_port == LUAU_LSP_DEFAULT_PORT,
            r.token is None,
            r.security_level == SecurityLevel::LocalUser,
            !r.no_verde,
            !r.no_luau_lsp,
    {
        RunArgs {
            port: 0,
            verde_port: VERDE_DEFAULT_PORT,
            luau_lsp_port: LUAU_LSP_DEFAULT_PORT,
            token: Option::None,
            security_level: SecurityLevel::LocalUser,
            no_verde: false,
            no_luau_lsp: false,
        }
    }
}

#[derive(Debug)]
pub struct StopArgs {
    /// Kill the broker process by PID instead of asking it to shut down.
    pub force: bool,
}

impl Default for StopArgs {
    fn default() -> (r: Self)
        ensures
            !r.force,
    {
        StopArgs { force: false }
    }
}

/// How (and whether) to surface the handshake to the spawning process.
#[derive(Debug, Clone, Copy, PartialEq, Eq, Structural)]
pub enum HandshakeFormat {
    /// Print the handshake JSON line to stdout.
    Stdout,
}

/// The highest property write-security tier the inspector may show; higher
/// tiers expose more Roblox-internal properties (e.g. `Player.User` at `Roblox`).
#[derive(Debug, Clone, Copy, PartialEq, Eq, Structural)]
pub enum SecurityLevel {
    /// Only freely-writable properties.
    Unrestricted,
    /// ...plus plugin-writable ones.
    Plugin,
    /// ...plus local-user-writable ones (the default).
    LocalUser,
    /// ...plus Roblox-script-writable ones.
    RobloxScript,
    /// ...plus Roblox-only-writable internals (e.g. `Player.User`).
    Roblox,
}

impl Default for SecurityLevel {
    fn default() -> (r: Self)
        ensures
            r == SecurityLevel::LocalUser,
    {
        SecurityLevel::LocalUser
    }
}

/// The write-security ordinal of a tier, matching the API dump's encoding.
pub open spec fn spec_ordinal(level: SecurityLevel) -> u8 {
    match level {
        SecurityLevel::Unrestricted => 0,
        SecurityLevel::Plugin => 1,
        SecurityLevel::LocalUser => 2,
        SecurityLevel::RobloxScript => 3,
        SecurityLevel::Roblox => 4,
    }
}

impl SecurityLevel {
    /// The write-security ordinal this tier admits, matching the dump's encoding.
    pub fn ordinal(self) -> (r: u8)
        ensures
            r == spec_ordinal(self),
    {
        match self {
            SecurityLevel::Unrestricted => 0,
            SecurityLevel::Plugin => 1,
            SecurityLevel::LocalUser => 2,
            SecurityLevel::RobloxScript => 3,
            SecurityLevel::Roblox => 4,
        }
    }
}

/// Every tier has an ordinal of its own, from 0 for the least privileged to 4
/// for Roblox's.
pub proof fn lemma_ordinals_distinct(a: SecurityLevel, b: SecurityLevel)
    ensures
        spec_ordinal(a) <= 4,
        (spec_ordinal(a) == spec_ordinal(b)) == (a == b),
{
}

/// The tier an ordinal stands for; ordinals past the highest tier stand for it.
pub open spec fn spec_from_ordinal(ordinal: u8) -> SecurityLevel {
    if ordinal == 0 {
        SecurityLevel::Unrestricted
    } else if ordinal == 1 {
        SecurityLevel::Plugin
    } else if ordinal == 2 {
        SecurityLevel::LocalUser
    } else if ordinal == 3 {
        SecurityLevel::RobloxScript
    } else {
        SecurityLevel::Roblox
    }
}

/// The name a tier goes by on the command line.
pub open spec fn spec_tier_name(level: SecurityLevel) -> Seq<char> {
    match level {
        SecurityLevel::Unrestricted => "none"@,
        SecurityLevel::Plugin => "plugin"@,
        SecurityLevel::LocalUser => "local-user"@,
        SecurityLevel::RobloxScript => "roblox-script"@,
        SecurityLevel::Roblox => "roblox"@,
    }
}

impl SecurityLevel {
    /// The tier an ordinal stands for (an ordinal past the highest tier
    /// stands for the highest).
    pub fn from_ordinal(ordinal: u8) -> (r: SecurityLevel)
        ensures
            r == spec_from_ordinal(ordinal),
    {
        if ordinal == 0 {
            SecurityLevel::Unrestricted
        } else if ordinal == 1 {
            SecurityLevel::Plugin
        } else if ordinal == 2 {
            SecurityLevel::LocalUser
        } else if ordinal == 3 {
            SecurityLevel::RobloxScript
        } else {
            SecurityLevel::Roblox
        }
    }

    /// The name the tier goes by on the command line.
    pub fn as_str(self) -> (r: &'static str)
        ensures
            r@ == spec_tier_name(self),
    {
        match self {
            SecurityLevel::Unrestricted => "none",
            SecurityLevel::Plugin => "plugin",
            SecurityLevel::LocalUser => "local-user",
            SecurityLevel::RobloxScript => "roblox-script",
            SecurityLevel::Roblox => "roblox",
        }
    }
}

/// A tier survives the trip through its ordinal.
pub proof fn lemma_ordinal_round_trip(level: SecurityLevel)
    ensures
        spec_from_ordinal(spec_ordinal(level)) == level,
{
}

/// Whether a running broker's handshake differs from what the arguments pin
/// (a non-zero port, or a token), so that it cannot be reused.
pub open spec fn spec_pinned_elsewhere(port: u16, token: Option<Seq<char>>, handshake: Handshake) -> bool {
    (port != 0 && port != handshake.port) || (token matches Some(t) && t != handshake.token@)
}

impl RunArgs {
    /// Whether the running broker `handshake` describes is pinned elsewhere than
    /// these arguments ask: another port than a non-zero `port`, or another
    /// token than a given `token`.
    pub fn pinned_elsewhere(&self, handshake: &Handshake) -> (r: bool)
        ensures
            r == spec_pinned_elsewhere(
                self.port,
                match self.token {
                    Some(t) => Some(t@),
                    None => None,
                },
                *handshake,
            ),
    {
        let port_differs = self.port != 0 && self.port != handshake.port;
        let token_differs = match &self.token {
            Some(token) => *token != handshake.token,
            None => false,
        };
        port_differs || token_differs
    }
}

} // verus!
