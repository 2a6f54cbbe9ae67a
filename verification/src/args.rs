//! The command line, as plain values.

use vstd::prelude::*;

verus! {

/// The parsed command line.
#[derive(Debug)]
pub struct TilbArgs {
    pub action: Actions,
}

/// What the user asked for.
#[derive(Debug)]
pub enum Actions {
    /// List all users
    List,
    /// Add a new user
    Add(NewUserArgs),
    /// Remove an existing user
    Remove(UserArgs),
    /// Switch to a different user
    Switch(UserArgs),
}

/// The arguments of `add`.
#[derive(Debug)]
pub struct NewUserArgs {
    /// The username to operate on
    pub user: String,
    /// The email shown in commits
    pub email: String,
    /// The website of the git host, e.g. github, gitlab, bitbucket
    pub website: String,
    /// Whether remotes of this user go over HTTPS rather than SSH
    pub use_https: bool,
}

/// The arguments of `remove` and `switch`.
#[derive(Debug)]
pub struct UserArgs {
    /// The username to operate on
    pub user: String,
}

} // verus!
