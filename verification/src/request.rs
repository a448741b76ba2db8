//! What the options of a command ask for.

use vstd::prelude::*;

use crate::commands::wait::Plan;

verus! {

/// What a `diff` shows: the pending lines once, the pending lines as they arrive, or the
/// lines of a checkpoint.
pub enum Diff {
    Pending,
    Follow,
    Recall(String),
}

/// What `--follow` and `--in` ask a `diff` for. They do not go together.
pub fn diff_request(follow: bool, at: Option<String>) -> (r: Result<Diff, String>)
    ensures
        match (follow, at) {
            (true, Some(_)) => r is Err && r->Err_0@
                == "--follow and --in are mutually exclusive"@,
            (true, None) => r == Ok::<Diff, String>(Diff::Follow),
            (false, Some(at)) => r == Ok::<Diff, String>(Diff::Recall(at)),
            (false, None) => r == Ok::<Diff, String>(Diff::Pending),
        },
{
    match at {
        Some(at) => if follow {
            Err("--follow and --in are mutually exclusive".to_owned())
        } else {
            Ok(Diff::Recall(at))
        },
        None => if follow {
            Ok(Diff::Follow)
        } else {
            Ok(Diff::Pending)
        },
    }
}

/// For what a `commit` waits, given whether it is to wait for a line, for how long at
/// most, and how long the files have to be quiet. It waits for nothing where neither is
/// asked for.
pub fn commit_request(for_line: bool, at_most: Option<u64>, settle: Option<u64>) -> (plan: Option<
    Plan,
>)
    requires
        for_line ==> at_most is Some,
    ensures
        plan == (if for_line {
            Some(Plan { at_most: at_most->0, settle })
        } else if settle is Some {
            Some(Plan { at_most: 0, settle })
        } else {
            None
        }),
{
    if for_line {
        match at_most {
            Some(at_most) => Some(Plan { at_most, settle }),
            None => None,
        }
    } else if settle.is_some() {
        Some(Plan { at_most: 0, settle })
    } else {
        None
    }
}

} // verus!
