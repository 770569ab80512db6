//! Process-wide configuration and state.

use crate::database::Database;
use vstd::prelude::*;

verus! {

/// Settings read from the environment at startup.
#[derive(Debug, Clone, PartialEq, Eq)]
pub struct Environments {
    pub listen_at: String,
    pub database_uri: String,
}

/// What every request handler is given: the one store of the process.
pub struct State {
    pub pool: Database,
}

/// A state holding an empty store.
pub fn create_state() -> (r: State)
    ensures
        r.pool.wf(),
        r.pool.bookmarks@.len() == 0,
        r.pool.tags@.len() == 0,
        r.pool.relations@.len() == 0,
{
    State { pool: Database::new() }
}

} // verus!
