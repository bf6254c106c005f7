//! What a traversal worker does with each path it comes to.
//!
//! The traversal itself, and the predicate that says which paths to leave
//! out, belong to the caller. The worker only hands on what the caller found
//! out about one path, and is told here what to do with it. A path whose
//! name is not valid text comes without text, and one that could not be
//! looked at comes without what looking at it would have shown.

use crate::entry::{EntryView, FileEntry};
use crate::path::normal_form;
use vstd::prelude::*;

verus! {

/// What the ignore predicate says of a path.
#[derive(Debug, Clone, Copy, PartialEq, Eq, Structural)]
pub enum Verdict {
    /// Visit the path, and what lies beneath it.
    Traverse,
    /// Leave the path out, with everything beneath it.
    Skip,
}

/// What looking at a path brought to light.
#[derive(Debug, Clone, Copy, PartialEq, Eq, Structural)]
pub struct Stat {
    /// Whether the path is a regular file.
    pub regular: bool,
    /// The length in bytes that the file system reports.
    pub len: u64,
}

/// What the worker does next.
#[derive(Debug)]
pub enum Decision {
    /// Send the entry to the aggregator and walk on.
    Emit(FileEntry),
    /// Send nothing for this path and walk on.
    Pass,
    /// Send nothing for this path and do not descend into it.
    Prune,
    /// The run was cancelled: send nothing and stop walking.
    Stop,
}

/// The bytes that a path adds to the totals: its length where it is a
/// regular file, nothing otherwise.
pub open spec fn counted_size(stat: Stat) -> u64 {
    if stat.regular {
        stat.len
    } else {
        0
    }
}

/// Decides what to do with one path. Once the run is cancelled, the worker
/// stops, whatever the path. Otherwise a path that the predicate leaves out
/// is pruned; a path that cannot be written as text (`path` is `None`) or
/// that could not be looked at (`stat` is `None`) is passed over, and the
/// traversal goes on; every other path is emitted, in normal form, with the
/// bytes it counts for.
pub fn decide(cancelled: bool, verdict: Verdict, path: Option<&str>, stat: Option<Stat>) -> (decision:
    Decision)
    ensures
        cancelled ==> decision is Stop,
        !cancelled && verdict == Verdict::Skip ==> decision is Prune,
        !cancelled && verdict == Verdict::Traverse && (path is None || stat is None)
            ==> decision is Pass,
        !cancelled && verdict == Verdict::Traverse && path is Some && stat is Some
            ==> decision is Emit && decision->Emit_0@ == (EntryView {
            path: normal_form(path->0@),
            size: counted_size(stat->0),
        }),
{
    if cancelled {
        return Decision::Stop;
    }
    match verdict {
        Verdict::Skip => Decision::Prune,
        Verdict::Traverse => match (path, stat) {
            (Some(text), Some(found)) => {
                let size = if found.regular {
                    found.len
                } else {
                    0
                };
                Decision::Emit(FileEntry::new(text, size))
            },
            _ => Decision::Pass,
        },
    }
}

} // verus!
