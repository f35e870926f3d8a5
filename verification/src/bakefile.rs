//! Bakefiles: tasks keyed by name, in the older file format.
use crate::strmap::StringMap;
use vstd::prelude::*;

verus! {

/// The default location for commands and files.
pub const DEFAULT_LOCATION: &'static str = "/scratch";

/// A task of a bakefile.
#[derive(Debug, PartialEq, Eq)]
pub struct Task {
    pub dependencies: Vec<String>,
    pub cache: bool,
    pub args: StringMap<Option<String>>,
    pub files: Vec<String>,
    pub location: String,
    pub command: Option<String>,
}

/// Whether a task is cached unless it says otherwise.
pub fn default_task_cache() -> (b: bool)
    ensures
        b,
{
    true
}

/// The location of a task that names none.
pub fn default_task_location() -> (s: String)
    ensures
        s@ == "/scratch"@,
{
    proof { reveal_strlit("/scratch"); }
    String::from_str("/scratch")
}

/// A bakefile.
#[derive(Debug, PartialEq, Eq)]
pub struct Bakefile {
    pub image: String,
    pub tasks: StringMap<Task>,
}

} // verus!
