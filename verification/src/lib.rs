//! The broker's verified core: protocol data, session bookkeeping, the DOM
//! mirror and the rules that translate between clients and upstream tools.

pub mod cli;
pub mod upstream;
pub mod protocol;
pub mod hex;
pub mod assoc;
pub mod query;
pub mod sessions;
pub mod mirror;
pub mod session;
pub mod api;
pub mod verde;
pub mod history;
pub mod dom;
pub mod clock;
pub mod tree_walk;
