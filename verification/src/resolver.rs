//! Resolution: turning a typed token into at most one reply.
//!
//! Resolution is a single-shot walk: look the token up directly; if it
//! owns no rows, follow the guild's alias map one step — never more — and
//! look the destination up; whichever lookup hits, one of its variants is
//! chosen at random and the counter of the *resolved* name (after the
//! alias, not the typed token) is bumped. `resolve` performs the walk
//! against the stores; `resolver_step` is the same walk broken into
//! store-event transitions, for a caller that performs each store call
//! itself (a deployment whose stores live behind asynchronous back ends).

use vstd::prelude::*;

use crate::crud::{responses_for, rows_for, rows_view, CommandStore};
use crate::kvs::{alias_dst, has_alias, scores_bumped, AliasView, CounterStore};
use crate::models::CommandView;

verus! {

/// A trusted draw from the process-wide random generator.
///
/// Relies on `rand::Rng::gen_range` (rand 0.8) over the range `0..n`: the
/// draw lies in the range, and the call panics only on an empty range,
/// which the precondition rules out. Nothing more is assumed: the draw
/// depends on chance, so two calls with one bound may differ.
#[verifier::external_body]
fn random_below(n: usize) -> (r: usize)
    requires
        1 <= n,
    ensures
        r < n,
{
    rand::Rng::gen_range(&mut rand::thread_rng(), 0..n)
}

/// The name a resolution of `tok` will be credited to: the token itself
/// when it owns rows; else the alias destination, when the token is
/// aliased and the destination owns rows; else nothing.
pub open spec fn resolve_target(
    rows: Seq<CommandView>,
    aliases: Seq<AliasView>,
    g: Seq<char>,
    tok: Seq<char>,
) -> Option<Seq<char>> {
    if rows_for(rows, g, tok).len() > 0 {
        Some(tok)
    } else if has_alias(aliases, g, tok) && rows_for(rows, g, alias_dst(aliases, g, tok)).len()
        > 0 {
        Some(alias_dst(aliases, g, tok))
    } else {
        None
    }
}

/// Resolve `token` in `guild`: at most one reply, chosen among the
/// variants of the resolved name; the resolved name's counter is bumped
/// exactly when a reply is produced, and the alias map is never written.
pub fn resolve(cmds: &CommandStore, ctrs: &mut CounterStore, guild_id: &str, token: &str) -> (r:
    Option<String>)
    requires
        old(ctrs).wf(),
    ensures
        final(ctrs).wf(),
        final(ctrs)@.aliases == old(ctrs)@.aliases,
        r.is_some() == resolve_target(cmds@.rows, old(ctrs)@.aliases, guild_id@, token@).is_some(),
        match resolve_target(cmds@.rows, old(ctrs)@.aliases, guild_id@, token@) {
            Some(name) => {
                &&& responses_for(cmds@.rows, guild_id@, name).contains(r->0@)
                &&& scores_bumped(old(ctrs)@.scores, final(ctrs)@.scores, guild_id@, name)
            },
            None => final(ctrs)@.scores == old(ctrs)@.scores,
        },
{
    let direct = cmds.get_all_commands(guild_id, token);
    if direct.len() > 0 {
        let i = random_below(direct.len());
        let text = direct[i].response.clone();
        proof {
            assert(rows_view(direct@)[i as int] == direct@[i as int]@);
            assert(responses_for(cmds@.rows, guild_id@, token@)[i as int] == text@);
        }
        ctrs.command_incr(guild_id, token);
        Some(text)
    } else {
        proof {
            assert(rows_view(direct@).len() == 0);
        }
        match ctrs.retrieve_alias(guild_id, token) {
            Some(dst) => {
                let indirect = cmds.get_all_commands(guild_id, dst.as_str());
                if indirect.len() > 0 {
                    let i = random_below(indirect.len());
                    let text = indirect[i].response.clone();
                    proof {
                        assert(rows_view(indirect@)[i as int] == indirect@[i as int]@);
                        assert(responses_for(cmds@.rows, guild_id@, dst@)[i as int] == text@);
                    }
                    ctrs.command_incr(guild_id, dst.as_str());
                    Some(text)
                } else {
                    proof {
                        assert(rows_view(indirect@).len() == 0);
                    }
                    None
                }
            },
            None => None,
        }
    }
}

/// One alias hop at most: when `a` owns no rows and is aliased to `b`,
/// and `b` owns no rows either, resolution of `a` yields nothing — even
/// when `b` is itself aliased to a third name that owns rows.
pub proof fn lemma_at_most_one_hop(
    rows: Seq<CommandView>,
    aliases: Seq<AliasView>,
    g: Seq<char>,
    a: Seq<char>,
    b: Seq<char>,
    c: Seq<char>,
)
    requires
        rows_for(rows, g, a).len() == 0,
        has_alias(aliases, g, a),
        alias_dst(aliases, g, a) == b,
        has_alias(aliases, g, b),
        alias_dst(aliases, g, b) == c,
        rows_for(rows, g, b).len() == 0,
    ensures
        resolve_target(rows, aliases, g, a) is None,
{
}

/// The walk of one resolution, state by state. Terminal states are
/// `Emit` (reply and credit a name), `DoneEmpty` (stay silent) and
/// `Failed` (stay silent; the direct lookup failed).
pub enum ResolveStep {
    LookupDirect { token: String },
    LookupAlias { token: String },
    LookupIndirect { dst: String },
    Emit { name: String, text: String },
    DoneEmpty,
    Failed,
}

/// What a store answered: the rows of a lookup (their response texts), a
/// store failure, or the outcome of an alias read. An alias read that
/// fails counts as a miss: resolution stays silent either way.
pub enum StoreEvent {
    Rows { responses: Vec<String> },
    StoreFailed,
    AliasHit { dst: String },
    AliasMiss,
}

/// Which event answers which state: lookups are answered by rows or a
/// failure, the alias read by a hit or a miss; terminal states take no
/// event.
pub open spec fn step_expects(s: ResolveStep, e: StoreEvent) -> bool {
    match s {
        ResolveStep::LookupDirect { .. } => e is Rows || e is StoreFailed,
        ResolveStep::LookupIndirect { .. } => e is Rows || e is StoreFailed,
        ResolveStep::LookupAlias { .. } => e is AliasHit || e is AliasMiss,
        _ => false,
    }
}

pub open spec fn text_views(v: Seq<String>) -> Seq<Seq<char>> {
    v.map_values(|s: String| s@)
}

/// The transition relation of one resolution step.
pub open spec fn step_post(s: ResolveStep, e: StoreEvent, next: ResolveStep) -> bool {
    match s {
        ResolveStep::LookupDirect { token } => match e {
            StoreEvent::Rows { responses } => if responses@.len() > 0 {
                next matches ResolveStep::Emit { name, text } && name@ == token@ && text_views(
                    responses@,
                ).contains(text@)
            } else {
                next matches ResolveStep::LookupAlias { token: t } && t@ == token@
            },
            StoreEvent::StoreFailed => next is Failed,
            _ => true,
        },
        ResolveStep::LookupAlias { token } => match e {
            StoreEvent::AliasHit { dst } => next matches ResolveStep::LookupIndirect { dst: d }
                && d@ == dst@,
            StoreEvent::AliasMiss => next is DoneEmpty,
            _ => true,
        },
        ResolveStep::LookupIndirect { dst } => match e {
            StoreEvent::Rows { responses } => if responses@.len() > 0 {
                next matches ResolveStep::Emit { name, text } && name@ == dst@ && text_views(
                    responses@,
                ).contains(text@)
            } else {
                next is DoneEmpty
            },
            StoreEvent::StoreFailed => next is DoneEmpty,
            _ => true,
        },
        _ => true,
    }
}

/// Does `event` answer `state` the way the given stores would, on a run
/// where neither store fails? Terminal states take no answer.
pub open spec fn event_consistent(
    s: ResolveStep,
    e: StoreEvent,
    rows: Seq<CommandView>,
    aliases: Seq<AliasView>,
    g: Seq<char>,
) -> bool {
    match s {
        ResolveStep::LookupDirect { token } => e matches StoreEvent::Rows { responses }
            && text_views(responses@) == responses_for(rows, g, token@),
        ResolveStep::LookupAlias { token } => match e {
            StoreEvent::AliasHit { dst } => has_alias(aliases, g, token@) && dst@ == alias_dst(
                aliases,
                g,
                token@,
            ),
            StoreEvent::AliasMiss => !has_alias(aliases, g, token@),
            _ => false,
        },
        ResolveStep::LookupIndirect { dst } => e matches StoreEvent::Rows { responses }
            && text_views(responses@) == responses_for(rows, g, dst@),
        _ => false,
    }
}

/// What each state of a resolution of `tok` claims about the stores; the
/// claims of the terminal states are the resolver's own contract.
pub open spec fn state_sound(
    s: ResolveStep,
    rows: Seq<CommandView>,
    aliases: Seq<AliasView>,
    g: Seq<char>,
    tok: Seq<char>,
) -> bool {
    match s {
        ResolveStep::LookupDirect { token } => token@ == tok,
        ResolveStep::LookupAlias { token } => token@ == tok && rows_for(rows, g, tok).len() == 0,
        ResolveStep::LookupIndirect { dst } => rows_for(rows, g, tok).len() == 0 && has_alias(
            aliases,
            g,
            tok,
        ) && dst@ == alias_dst(aliases, g, tok),
        ResolveStep::Emit { name, text } => resolve_target(rows, aliases, g, tok) == Some(name@)
            && responses_for(rows, g, name@).contains(text@),
        ResolveStep::DoneEmpty => resolve_target(rows, aliases, g, tok) is None,
        ResolveStep::Failed => false,
    }
}

/// The walk computes the resolution: starting from `LookupDirect` —
/// which is sound by definition — every step taken on a store answer
/// that reflects the stores keeps the state sound, so a walk on a
/// failure-free run can only end in `Emit` of a variant of the resolved
/// name, or in `DoneEmpty` when the resolution is empty — exactly the
/// contract of `resolve`.
pub proof fn lemma_walk_computes_resolution(
    state: ResolveStep,
    event: StoreEvent,
    next: ResolveStep,
    rows: Seq<CommandView>,
    aliases: Seq<AliasView>,
    g: Seq<char>,
    tok: Seq<char>,
)
    requires
        state_sound(state, rows, aliases, g, tok),
        event_consistent(state, event, rows, aliases, g),
        step_post(state, event, next),
    ensures
        state_sound(next, rows, aliases, g, tok),
{
    match state {
        ResolveStep::LookupDirect { token } => {
            if let StoreEvent::Rows { responses } = event {
                assert(text_views(responses@).len() == responses_for(rows, g, tok).len());
            }
        },
        ResolveStep::LookupIndirect { dst } => {
            if let StoreEvent::Rows { responses } = event {
                assert(text_views(responses@).len() == responses_for(rows, g, dst@).len());
            }
        },
        _ => {},
    }
}

/// Advance one resolution by one store answer. When a lookup hit, the
/// reply is drawn at random among the returned variants.
pub fn resolver_step(state: ResolveStep, event: StoreEvent) -> (next: ResolveStep)
    requires
        step_expects(state, event),
    ensures
        step_post(state, event, next),
{
    match state {
        ResolveStep::LookupDirect { token } => match event {
            StoreEvent::Rows { responses } => {
                if responses.len() > 0 {
                    let i = random_below(responses.len());
                    let text = responses[i].clone();
                    proof {
                        assert(text_views(responses@)[i as int] == text@);
                    }
                    ResolveStep::Emit { name: token, text }
                } else {
                    ResolveStep::LookupAlias { token }
                }
            },
            StoreEvent::StoreFailed => ResolveStep::Failed,
            _ => {
                proof {
                    assert(false);
                }
                ResolveStep::DoneEmpty
            },
        },
        ResolveStep::LookupAlias { token: _ } => match event {
            StoreEvent::AliasHit { dst } => ResolveStep::LookupIndirect { dst },
            StoreEvent::AliasMiss => ResolveStep::DoneEmpty,
            _ => {
                proof {
                    assert(false);
                }
                ResolveStep::DoneEmpty
            },
        },
        ResolveStep::LookupIndirect { dst } => match event {
            StoreEvent::Rows { responses } => {
                if responses.len() > 0 {
                    let i = random_below(responses.len());
                    let text = responses[i].clone();
                    proof {
                        assert(text_views(responses@)[i as int] == text@);
                    }
                    ResolveStep::Emit { name: dst, text }
                } else {
                    ResolveStep::DoneEmpty
                }
            },
            StoreEvent::StoreFailed => ResolveStep::DoneEmpty,
            _ => {
                proof {
                    assert(false);
                }
                ResolveStep::DoneEmpty
            },
        },
        _ => {
            proof {
                assert(false);
            }
            ResolveStep::DoneEmpty
        },
    }
}

} // verus!
