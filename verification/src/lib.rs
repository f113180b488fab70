//! Core of a per-guild custom-response chat bot: command records with
//! multi-variant responses, invocation counters with a top-k scoreboard,
//! per-guild name aliases, the resolution state machine that turns an
//! unknown token into at most one reply, and the key/value configuration
//! grammar. The deployment wires these rules to its real back ends; this
//! crate holds the rules themselves, each behind a proved contract.

pub mod config;
pub mod crud;
pub mod dispatch;
pub mod kvs;
pub mod models;
pub mod mutator;
pub mod resolver;

use vstd::prelude::*;

verus! {

/// Error taxonomy for the bot core.
///
/// `InvalidArgs` is a caller-side mistake (an empty name, missing tokens);
/// `Storage` is a command-store failure; `Counter` is a counter-store
/// failure, always swallowed after logging; `Transport` is a failure to
/// deliver an outbound chat-platform call.
#[derive(Clone, Copy, Debug, PartialEq, Eq, Structural)]
pub enum BotError {
    InvalidArgs,
    Storage,
    Counter,
    Transport,
}

} // verus!
