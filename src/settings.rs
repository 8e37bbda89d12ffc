//! Settings records: the editor preferences kept per user, the run settings
//! kept in a project, and the identity the authentication layer hands on.
use vstd::prelude::*;

verus! {

/// Editor preferences of a user, kept by the settings store.
#[derive(Clone, Copy, Debug, PartialEq, Eq)]
pub struct EditorSettings {
    pub auto_save: bool,
}

impl Default for EditorSettings {
    fn default() -> (r: Self)
        ensures
            r.auto_save,
    {
        EditorSettings { auto_save: true }
    }
}

/// The run settings of a project, read from its metadata directory.
#[derive(Clone, Debug)]
pub struct ProjectSettings {
    pub run_command: String,
}

/// A user whose credentials the authentication layer has already checked.
#[derive(Clone, Copy, Debug, PartialEq, Eq)]
pub struct AuthUser {
    pub github_id: i32,
}

} // verus!
