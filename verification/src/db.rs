//! Rows of the pet database. The SQLite access itself is done by the caller.

use vstd::prelude::*;

verus! {

/// An imported pet.
#[derive(Clone, Debug)]
pub struct PetRow {
    pub id: String,
    pub display_name: String,
    pub source: String,
    pub imported_at: i64,
    pub builtin: bool,
}

/// How an action of a pet is used: interactive (`click`/`drag`) or part of
/// the state pools.
#[derive(Clone, Debug)]
pub struct ActionRow {
    /// The animation's name (file stem).
    pub action: String,
    /// Name shown to the user.
    pub display_name: String,
    /// `interactive` or `state`.
    pub owner_kind: String,
    /// For interactive actions, `click` or `drag`.
    pub kind: Option<String>,
    pub enabled: bool,
}

} // verus!
