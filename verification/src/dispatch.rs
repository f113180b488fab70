//! Dispatch decisions: the rules the chat adapter applies to an inbound
//! message before any store is touched. The adapter itself — the gateway
//! client, the prefix parser, the reaction side-effects — stays outside;
//! these functions fix what it must decide.

use vstd::prelude::*;

use crate::BotError;

verus! {

/// What to do with an inbound message before reading any verb: drop it,
/// refuse it with the direct-message rejection reply, or handle it.
#[derive(Clone, Copy, Debug, PartialEq, Eq, Structural)]
pub enum MessageGate {
    Ignore,
    RejectDm,
    Proceed,
}

/// A message from a bot account is dropped entirely; one without a guild
/// context is refused with a fixed reply; only the rest is handled.
pub fn guard_message(from_bot: bool, in_guild: bool) -> (r: MessageGate)
    ensures
        r == if from_bot {
            MessageGate::Ignore
        } else if !in_guild {
            MessageGate::RejectDm
        } else {
            MessageGate::Proceed
        },
{
    if from_bot {
        MessageGate::Ignore
    } else if !in_guild {
        MessageGate::RejectDm
    } else {
        MessageGate::Proceed
    }
}

/// Shape the arguments of an `add`: the first token is the name; the
/// response is the attachment's URL when the message carries one, else
/// the rest of the message. An empty name or an empty response is the
/// caller's mistake, and exactly then nothing is registered.
pub fn prepare_add(name: &str, rest: &str, attachment_url: Option<&str>) -> (r: Result<
    (String, String),
    BotError,
>)
    ensures
        match r {
            Ok(p) => {
                &&& p.0@ == name@
                &&& p.1@ == match attachment_url {
                    Some(u) => u@,
                    None => rest@,
                }
                &&& name@.len() > 0
                &&& p.1@.len() > 0
            },
            Err(e) => e == BotError::InvalidArgs && (name@.len() == 0 || (match attachment_url {
                Some(u) => u@,
                None => rest@,
            }).len() == 0),
        },
{
    let response: String = match attachment_url {
        Some(u) => u.to_owned(),
        None => rest.to_owned(),
    };
    if name.is_empty() || response.as_str().is_empty() {
        return Err(BotError::InvalidArgs);
    }
    Ok((name.to_owned(), response))
}

} // verus!
