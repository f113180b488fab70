//! Data model: one `Command` row per registered response variant, and the
//! `NewCommand` shape that an insertion starts from. The pair
//! `(guild_id, command)` is deliberately not unique: several variants may
//! coexist and the resolver picks one of them at random.

use vstd::prelude::*;

verus! {

/// Mathematical view of one stored command row.
pub ghost struct CommandView {
    pub id: int,
    pub guild_id: Seq<char>,
    pub command: Seq<char>,
    pub response: Seq<char>,
    pub created_by: Seq<char>,
    pub created_at: int,
}

/// One registered response variant.
///
/// `id` is assigned by the store and unique; `created_at` is a UTC
/// timestamp in seconds since the Unix epoch, assigned by the store's
/// caller at insertion time.
#[derive(Debug)]
pub struct Command {
    pub id: i64,
    pub guild_id: String,
    pub command: String,
    pub response: String,
    pub created_by: String,
    pub created_at: i64,
}

impl View for Command {
    type V = CommandView;

    open spec fn view(&self) -> CommandView {
        CommandView {
            id: self.id as int,
            guild_id: self.guild_id@,
            command: self.command@,
            response: self.response@,
            created_by: self.created_by@,
            created_at: self.created_at as int,
        }
    }
}

impl Clone for Command {
    fn clone(&self) -> (r: Command)
        ensures
            r@ == self@,
    {
        Command {
            id: self.id,
            guild_id: self.guild_id.clone(),
            command: self.command.clone(),
            response: self.response.clone(),
            created_by: self.created_by.clone(),
            created_at: self.created_at,
        }
    }
}

/// Mathematical view of a row to be inserted.
pub ghost struct NewCommandView {
    pub guild_id: Seq<char>,
    pub command: Seq<char>,
    pub response: Seq<char>,
    pub created_by: Seq<char>,
}

/// A row to be inserted: everything of a `Command` except what the store
/// assigns (`id`, `created_at`).
#[derive(Debug)]
pub struct NewCommand {
    pub guild_id: String,
    pub command: String,
    pub response: String,
    pub created_by: String,
}

impl View for NewCommand {
    type V = NewCommandView;

    open spec fn view(&self) -> NewCommandView {
        NewCommandView {
            guild_id: self.guild_id@,
            command: self.command@,
            response: self.response@,
            created_by: self.created_by@,
        }
    }
}

/// Character-for-character equality of two text slices.
pub fn str_eq(a: &str, b: &str) -> (r: bool)
    ensures
        r == (a@ == b@),
{
    let x: String = a.to_owned();
    let y: String = b.to_owned();
    x == y
}

} // verus!
