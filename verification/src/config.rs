//! Configuration data for the surrounding program: plain values only; the
//! program loads and persists them itself.

use vstd::prelude::*;

verus! {

/// Connection settings for the database session the surrounding program
/// opens.
#[derive(Debug, PartialEq, Eq)]
pub struct SurrealDB {
    /// The server address.
    pub address: String,
    /// The login user name.
    pub username: String,
    /// The login password.
    pub password: String,
}

/// The program configuration.  Chat user and server identifiers are held
/// as their plain 64-bit numbers.
#[derive(Debug, PartialEq, Eq)]
pub struct Schema {
    /// The gateway token.
    pub token: String,
    /// The command prefix character.
    pub prefix: char,
    /// The owners' user identifiers.
    pub owners: Vec<u64>,
    /// The servers the program answers on.
    pub servers: Vec<u64>,
    /// The database connection settings.
    pub surrealdb: SurrealDB,
}

/// The command prefix used when the configuration names none.
pub fn __default_prefix() -> (c: char)
    ensures
        c == '!',
{
    '!'
}

} // verus!
