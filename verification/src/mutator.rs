//! Mutator: the write-side verbs that keep the two stores in agreement.
//!
//! `add` writes only the command store; `remove` purges the counter entry
//! first and deletes the rows second, so the scoreboard never ranks a name
//! whose rows are already gone (the opposite window — rows still present,
//! counter already purged — is benign: the next resolution recreates the
//! counter). The alias verbs write only the counter store.

use vstd::prelude::*;

use crate::crud::{row_matches, rows_for, CommandStore};
use crate::kvs::{
    aliases_removed, aliases_set, has_alias, has_score, scores_forgotten, CounterStore,
};
use crate::models::CommandView;
use crate::BotError;

verus! {

/// Register one response variant for `(guild, name)`. An empty name or an
/// empty response is the caller's mistake and writes nothing; any other
/// input appends exactly one row.
pub fn add(
    cmds: &mut CommandStore,
    guild_id: &str,
    author: &str,
    name: &str,
    response: &str,
    created_at: i64,
) -> (r: Result<(), BotError>)
    requires
        old(cmds).wf(),
        old(cmds)@.next_id < i64::MAX,
    ensures
        final(cmds).wf(),
        name@.len() == 0 || response@.len() == 0 ==> (r == Err::<(), BotError>(
            BotError::InvalidArgs,
        ) && final(cmds)@ == old(cmds)@),
        name@.len() > 0 && response@.len() > 0 ==> (r == Ok::<(), BotError>(())
            && final(cmds)@.rows == old(cmds)@.rows.push(
            CommandView {
                id: old(cmds)@.next_id,
                guild_id: guild_id@,
                command: name@,
                response: response@,
                created_by: author@,
                created_at: created_at as int,
            },
        ) && final(cmds)@.next_id == old(cmds)@.next_id + 1),
{
    if name.is_empty() || response.is_empty() {
        return Err(BotError::InvalidArgs);
    }
    let _ = cmds.add_command(guild_id, name, response, author, created_at);
    Ok(())
}

/// Delete every variant of `(guild, name)` and report how many there
/// were; 0 is still success. The counter entry is purged before the rows
/// are deleted.
pub fn remove(
    cmds: &mut CommandStore,
    ctrs: &mut CounterStore,
    guild_id: &str,
    name: &str,
) -> (r: Result<usize, BotError>)
    requires
        old(cmds).wf(),
        old(ctrs).wf(),
    ensures
        final(cmds).wf(),
        final(ctrs).wf(),
        scores_forgotten(old(ctrs)@.scores, final(ctrs)@.scores, guild_id@, name@),
        !has_score(final(ctrs)@.scores, guild_id@, name@),
        final(ctrs)@.aliases == old(ctrs)@.aliases,
        final(cmds)@.rows == old(cmds)@.rows.filter(
            (|c: CommandView| !row_matches(c, guild_id@, name@)),
        ),
        final(cmds)@.next_id == old(cmds)@.next_id,
        r matches Ok(n) && n == rows_for(old(cmds)@.rows, guild_id@, name@).len(),
{
    ctrs.command_delete(guild_id, name);
    let n = cmds.command_delete(guild_id, name);
    Ok(n)
}

/// Map alias `src` to `dst` in `guild`, overwriting any prior
/// destination. An empty name on either side is the caller's mistake and
/// writes nothing. The destination is not required to own rows: a
/// dangling alias is legal and resolves to nothing.
pub fn alias_add(ctrs: &mut CounterStore, guild_id: &str, src: &str, dst: &str) -> (r: Result<
    (),
    BotError,
>)
    requires
        old(ctrs).wf(),
    ensures
        final(ctrs).wf(),
        src@.len() == 0 || dst@.len() == 0 ==> r == Err::<(), BotError>(BotError::InvalidArgs)
            && final(ctrs)@ == old(ctrs)@,
        src@.len() > 0 && dst@.len() > 0 ==> r == Ok::<(), BotError>(()) && aliases_set(
            old(ctrs)@.aliases,
            final(ctrs)@.aliases,
            guild_id@,
            src@,
            dst@,
        ) && final(ctrs)@.scores == old(ctrs)@.scores,
{
    if src.is_empty() || dst.is_empty() {
        return Err(BotError::InvalidArgs);
    }
    let _ = ctrs.add_alias(guild_id, src, dst);
    Ok(())
}

/// Drop the alias of `(guild, src)`. Idempotent: dropping an absent alias
/// is still success.
pub fn alias_remove(ctrs: &mut CounterStore, guild_id: &str, src: &str) -> (r: Result<
    (),
    BotError,
>)
    requires
        old(ctrs).wf(),
    ensures
        final(ctrs).wf(),
        aliases_removed(old(ctrs)@.aliases, final(ctrs)@.aliases, guild_id@, src@),
        !has_alias(final(ctrs)@.aliases, guild_id@, src@),
        final(ctrs)@.scores == old(ctrs)@.scores,
        r == Ok::<(), BotError>(()),
{
    let _ = ctrs.remove_alias(guild_id, src);
    Ok(())
}

} // verus!
