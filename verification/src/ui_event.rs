use vstd::prelude::*;
use crate::paths::RepoPaths;

verus! {

/// A command asked for from the graphical front end, with what it needs.
pub enum UiEvent {
    GiIinit(RepoPaths),
    AddCommand(Vec<String>, RepoPaths),
    CommitCommand(Vec<String>, RepoPaths),
    ConfigCommand(RepoPaths, Vec<String>),
    CheckoutCommand(RepoPaths, Vec<String>),
    BranchCommand(RepoPaths, Vec<String>),
    MergeCommand(RepoPaths, Vec<String>),
    RemoteCommand(Vec<String>, String),
    CloneCommand(RepoPaths, Vec<String>),
    PushCommand(RepoPaths, Vec<String>),
    PullCommand(RepoPaths, Vec<String>),
}

} // verus!
