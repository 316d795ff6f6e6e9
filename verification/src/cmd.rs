//! The two mutation records written to the log, and their mathematical view.

use vstd::prelude::*;

verus! {

/// Abstract form of a command record: keys and values as character sequences.
pub enum Rec {
    Put { key: Seq<char>, value: Seq<char> },
    Remove { key: Seq<char> },
}

/// A mutation record, as appended to a log segment.
#[derive(Debug, Clone, PartialEq, Eq)]
pub enum Command {
    Put { key: String, value: String },
    Remove { key: String },
}

impl View for Command {
    type V = Rec;

    open spec fn view(&self) -> Rec {
        match self {
            Command::Put { key, value } => Rec::Put { key: key@, value: value@ },
            Command::Remove { key } => Rec::Remove { key: key@ },
        }
    }
}

impl Command {
    /// Builds the record asserting that `key` now maps to `value`.
    pub fn put(key: String, value: String) -> (c: Command)
        ensures
            c@ == (Rec::Put { key: key@, value: value@ }),
    {
        Command::Put { key, value }
    }

    /// Builds the record asserting that `key` no longer has a mapping.
    pub fn remove(key: String) -> (c: Command)
        ensures
            c@ == (Rec::Remove { key: key@ }),
    {
        Command::Remove { key }
    }
}

} // verus!
