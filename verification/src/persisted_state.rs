//! What the application keeps of its user's preferences. The engine does not
//! read it.

use vstd::prelude::*;
use crate::path::FilePath;

verus! {

/// The colours of the user interface.
#[derive(Clone, Copy, Debug, PartialEq, Eq, Structural)]
pub enum Theme {
    Light,
    Dark,
}

/// A project that the user has opened: a watched root and its name.
#[derive(Debug, PartialEq, Eq)]
pub struct PersistedProject {
    pub id: i32,
    pub path: FilePath,
    pub name: String,
}

/// All that is kept of the preferences.
#[derive(Debug, PartialEq, Eq)]
pub struct PersistedState {
    pub theme: Theme,
    pub projects: Vec<PersistedProject>,
    pub user_name: String,
}

} // verus!
