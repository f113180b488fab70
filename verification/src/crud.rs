//! Command store: the authoritative, append-only set of command rows.
//!
//! `(guild_id, command)` is not a key: every `add_command` appends one more
//! row, so a name may own several response variants. `command_delete`
//! removes every row of a `(guild, name)` pair and reports how many there
//! were; deleting a name that owns no rows is a successful no-op.

use vstd::prelude::*;

use crate::models::{str_eq, Command, CommandView, NewCommand};

verus! {

broadcast use vstd::seq_lib::group_seq_lib_default;

/// Does row `c` belong to the `(guild, name)` pair?
pub open spec fn row_matches(c: CommandView, g: Seq<char>, n: Seq<char>) -> bool {
    c.guild_id == g && c.command == n
}

/// All rows of the `(guild, name)` pair, in storage order.
pub open spec fn rows_for(rows: Seq<CommandView>, g: Seq<char>, n: Seq<char>) -> Seq<CommandView> {
    rows.filter(|c: CommandView| row_matches(c, g, n))
}

/// The response texts of the `(guild, name)` pair, in storage order.
pub open spec fn responses_for(rows: Seq<CommandView>, g: Seq<char>, n: Seq<char>) -> Seq<
    Seq<char>,
> {
    rows_for(rows, g, n).map_values(|c: CommandView| c.response)
}

pub open spec fn rows_view(v: Seq<Command>) -> Seq<CommandView> {
    v.map_values(|c: Command| c@)
}

/// Mathematical view of the command store.
pub ghost struct CommandStoreView {
    pub rows: Seq<CommandView>,
    pub next_id: int,
}

/// The command store itself: rows in insertion order, plus the identifier
/// that the next inserted row will receive.
pub struct CommandStore {
    rows: Vec<Command>,
    next_id: i64,
}

impl View for CommandStore {
    type V = CommandStoreView;

    closed spec fn view(&self) -> CommandStoreView {
        CommandStoreView { rows: rows_view(self.rows@), next_id: self.next_id as int }
    }
}

impl CommandStore {
    /// Well-formedness: identifiers already handed out stay below `next_id`,
    /// so a fresh row never collides with a stored one.
    pub open spec fn wf(&self) -> bool {
        &&& 0 <= self@.next_id
        &&& forall|i: int|
            0 <= i < self@.rows.len() ==> #[trigger] self@.rows[i].id < self@.next_id
    }

    pub fn new() -> (s: CommandStore)
        ensures
            s.wf(),
            s@.rows == Seq::<CommandView>::empty(),
            s@.next_id == 0,
    {
        let s = CommandStore { rows: Vec::new(), next_id: 0 };
        proof {
            assert(s@.rows =~= Seq::<CommandView>::empty());
        }
        s
    }

    /// Append one row for `(guild_id, command)`. Never deduplicates: a pair
    /// that already owns rows simply gains one more variant. Returns the
    /// number of rows written, which is always 1.
    ///
    /// `created_at` is the insertion timestamp in seconds since the Unix
    /// epoch; the caller reads the clock, the store only records the value.
    pub fn add_command(
        &mut self,
        guild_id: &str,
        command: &str,
        response: &str,
        created_by: &str,
        created_at: i64,
    ) -> (r: usize)
        requires
            old(self).wf(),
            old(self)@.next_id < i64::MAX,
        ensures
            final(self).wf(),
            final(self)@.rows == old(self)@.rows.push(
                CommandView {
                    id: old(self)@.next_id,
                    guild_id: guild_id@,
                    command: command@,
                    response: response@,
                    created_by: created_by@,
                    created_at: created_at as int,
                },
            ),
            final(self)@.next_id == old(self)@.next_id + 1,
            r == 1usize,
    {
        let new_command = NewCommand {
            guild_id: guild_id.to_owned(),
            command: command.to_owned(),
            response: response.to_owned(),
            created_by: created_by.to_owned(),
        };
        let row = Command {
            id: self.next_id,
            guild_id: new_command.guild_id,
            command: new_command.command,
            response: new_command.response,
            created_by: new_command.created_by,
            created_at,
        };
        self.rows.push(row);
        self.next_id = self.next_id + 1;
        proof {
            assert(self@.rows =~= old(self)@.rows.push(
                CommandView {
                    id: old(self)@.next_id,
                    guild_id: guild_id@,
                    command: command@,
                    response: response@,
                    created_by: created_by@,
                    created_at: created_at as int,
                },
            ));
        }
        1
    }

    /// Every row of `(guild, name)`, in storage order. An empty result is
    /// not an error: the name simply owns no variants.
    pub fn get_all_commands(&self, guild_id: &str, command_key: &str) -> (r: Vec<Command>)
        ensures
            rows_view(r@) == rows_for(self@.rows, guild_id@, command_key@),
    {
        let ghost vrows = self@.rows;
        let ghost pred = |c: CommandView| row_matches(c, guild_id@, command_key@);
        let mut out: Vec<Command> = Vec::new();
        let mut i: usize = 0;
        proof {
            assert(rows_view(out@) =~= vrows.take(0).filter(pred));
        }
        while i < self.rows.len()
            invariant
                i <= self.rows.len(),
                vrows == self@.rows,
                vrows.len() == self.rows@.len(),
                pred == (|c: CommandView| row_matches(c, guild_id@, command_key@)),
                rows_view(out@) == vrows.take(i as int).filter(pred),
            decreases self.rows@.len() - i,
        {
            let c = &self.rows[i];
            proof {
                assert(vrows[i as int] == c@);
                vrows.lemma_take_succ_push(i as int);
                vrows.take(i as int).lemma_filter_push(vrows[i as int], pred);
            }
            let g_ok = str_eq(c.guild_id.as_str(), guild_id);
            let k_ok = str_eq(c.command.as_str(), command_key);
            if g_ok && k_ok {
                let ghost prev = out@;
                let cc = c.clone();
                let ghost cv = cc@;
                out.push(cc);
                proof {
                    assert(rows_view(out@) =~= rows_view(prev).push(cv));
                    assert(rows_view(out@) =~= vrows.take(i + 1).filter(pred));
                }
            } else {
                proof {
                    assert(rows_view(out@) =~= vrows.take(i + 1).filter(pred));
                }
            }
            i = i + 1;
        }
        proof {
            assert(vrows.take(self.rows@.len() as int) =~= vrows);
        }
        out
    }

    /// Remove every row of `(guild, name)` and return how many were
    /// removed; 0 is a valid successful outcome.
    pub fn command_delete(&mut self, guild_id: &str, command_key: &str) -> (r: usize)
        requires
            old(self).wf(),
        ensures
            final(self).wf(),
            final(self)@.rows == old(self)@.rows.filter(
                (|c: CommandView| !row_matches(c, guild_id@, command_key@)),
            ),
            final(self)@.next_id == old(self)@.next_id,
            r == rows_for(old(self)@.rows, guild_id@, command_key@).len(),
    {
        let ghost vrows = self@.rows;
        let ghost keep = |c: CommandView| !row_matches(c, guild_id@, command_key@);
        let ghost pred = |c: CommandView| row_matches(c, guild_id@, command_key@);
        let mut kept: Vec<Command> = Vec::new();
        let mut removed: usize = 0;
        let mut i: usize = 0;
        proof {
            assert(rows_view(kept@) =~= vrows.take(0).filter(keep));
            assert(vrows.take(0).filter(pred) =~= Seq::<CommandView>::empty());
        }
        while i < self.rows.len()
            invariant
                i <= self.rows.len(),
                vrows == self@.rows,
                vrows.len() == self.rows@.len(),
                keep == (|c: CommandView| !row_matches(c, guild_id@, command_key@)),
                pred == (|c: CommandView| row_matches(c, guild_id@, command_key@)),
                rows_view(kept@) == vrows.take(i as int).filter(keep),
                removed == vrows.take(i as int).filter(pred).len(),
                removed <= i,
                forall|j: int|
                    0 <= j < rows_view(kept@).len() ==> #[trigger] rows_view(
                        kept@,
                    )[j].id < self@.next_id,
                old(self).wf(),
                self@ == old(self)@,
            decreases self.rows@.len() - i,
        {
            let c = &self.rows[i];
            proof {
                assert(vrows[i as int] == c@);
                vrows.lemma_take_succ_push(i as int);
                vrows.take(i as int).lemma_filter_push(vrows[i as int], keep);
                vrows.take(i as int).lemma_filter_push(vrows[i as int], pred);
            }
            let g_ok = str_eq(c.guild_id.as_str(), guild_id);
            let k_ok = str_eq(c.command.as_str(), command_key);
            if g_ok && k_ok {
                removed = removed + 1;
            } else {
                let ghost prev = kept@;
                let cc = c.clone();
                let ghost cv = cc@;
                kept.push(cc);
                proof {
                    assert(rows_view(kept@) =~= rows_view(prev).push(cv));
                    assert(rows_view(kept@) =~= vrows.take(i + 1).filter(keep));
                }
            }
            i = i + 1;
        }
        proof {
            assert(vrows.take(self.rows@.len() as int) =~= vrows);
        }
        self.rows = kept;
        removed
    }
}

/// A sequence in which every row belongs to `(guild, name)` is left whole
/// by the lookup filter.
proof fn lemma_all_match_filter_id(added: Seq<CommandView>, g: Seq<char>, n: Seq<char>)
    requires
        forall|i: int| 0 <= i < added.len() ==> row_matches(#[trigger] added[i], g, n),
    ensures
        added.filter((|c: CommandView| row_matches(c, g, n))) == added,
    decreases added.len(),
{
    let pred = |c: CommandView| row_matches(c, g, n);
    if added.len() == 0 {
        assert(added.filter(pred) =~= added);
    } else {
        let before = added.drop_last();
        lemma_all_match_filter_id(before, g, n);
        before.lemma_filter_push(added.last(), pred);
        assert(before.push(added.last()) =~= added);
        assert(added.filter(pred) =~= added);
    }
}

/// After `N` appended rows for one `(guild, name)` pair, a lookup of that
/// pair returns exactly the old rows followed by the `N` new ones, and its
/// responses are the old responses followed by the `N` new responses in
/// order of addition — in particular, a permutation of the added set when
/// the store started empty.
pub proof fn lemma_multi_variant(
    rows: Seq<CommandView>,
    added: Seq<CommandView>,
    g: Seq<char>,
    n: Seq<char>,
)
    requires
        forall|i: int| 0 <= i < added.len() ==> row_matches(#[trigger] added[i], g, n),
    ensures
        rows_for(rows + added, g, n) == rows_for(rows, g, n) + added,
        responses_for(rows + added, g, n) == responses_for(rows, g, n) + added.map_values(
            (|c: CommandView| c.response),
        ),
{
    let pred = |c: CommandView| row_matches(c, g, n);
    lemma_all_match_filter_id(added, g, n);
    assert((rows + added).filter(pred) == rows.filter(pred) + added.filter(pred));
    let f = |c: CommandView| c.response;
    assert((rows_for(rows, g, n) + added).map_values(f) =~= rows_for(rows, g, n).map_values(f)
        + added.map_values(f));
}

/// Removing a `(guild, name)` pair twice is safe: the first removal leaves
/// no row of the pair behind, so the second removes 0 rows.
pub proof fn lemma_remove_idempotent(rows: Seq<CommandView>, g: Seq<char>, n: Seq<char>)
    ensures
        rows_for(rows.filter((|c: CommandView| !row_matches(c, g, n))), g, n) == Seq::<
            CommandView,
        >::empty(),
{
    let keep = |c: CommandView| !row_matches(c, g, n);
    let pred = |c: CommandView| row_matches(c, g, n);
    let once = rows.filter(keep);
    let twice = once.filter(pred);
    if twice.len() > 0 {
        assert(pred(twice[0]));
        twice.lemma_index_contains(0);
        once.lemma_filter_contains_rev(pred, twice[0]);
        let j = choose|j: int| 0 <= j < once.len() && once[j] == twice[0];
        assert(keep(once[j]));
        assert(false);
    }
    assert(twice =~= Seq::<CommandView>::empty());
}

} // verus!
