//! Suggestions for the arguments of a command.

use vstd::prelude::*;

use crate::path;
use crate::path::short;
use crate::state;
use crate::state::{CommitView, State};
use crate::text;
use crate::text::push_decimal;

verus! {

/// The reference of a checkpoint: its message, or its id where it has none.
pub open spec fn own_reference(c: CommitView) -> Seq<char> {
    match c.message {
        Some(m) => m,
        None => text::decimal(c.id as nat),
    }
}

/// The reference of checkpoint `i` from the end.
pub open spec fn end_reference(history: Seq<CommitView>, i: int) -> Seq<char> {
    "^"@ + text::decimal((history.len() - i) as nat)
}

/// The short names of the files in the session.
pub fn session_files(state: &State) -> (names: Vec<String>)
    ensures
        state::names_view(names@) == Seq::new(
            state@.files.len(),
            |i: int| path::short_of(state@.files[i].path),
        ),
{
    let mut names: Vec<String> = Vec::new();
    let mut i: usize = 0;
    while i < state.files.len()
        invariant
            i <= state.files@.len(),
            names@.len() == i,
            forall|k: int|
                0 <= k < i ==> (#[trigger] names@[k])@ == path::short_of(state@.files[k].path),
        decreases state.files@.len() - i,
    {
        assert(state@.files[i as int] == state.files@[i as int]@);
        names.push(short(state.files[i].path.as_str()).to_owned());
        i += 1;
    }
    assert(state::names_view(names@) =~= Seq::new(
        state@.files.len(),
        |i: int| path::short_of(state@.files[i].path),
    ));
    names
}

/// References to the checkpoints of the session: each by its message (or its id), and by
/// its place from the end.
pub fn checkpoint_refs(state: &State) -> (refs: Vec<String>)
    ensures
        refs@.len() == 2 * state@.history.len(),
        forall|i: int|
            #![trigger state@.history[i]]
            0 <= i < state@.history.len() ==> refs@[2 * i]@ == own_reference(state@.history[i])
                && refs@[2 * i + 1]@ == end_reference(state@.history, i),
{
    let n: usize = state.history.len();
    let mut refs: Vec<String> = Vec::new();
    let mut i: usize = 0;
    while i < n
        invariant
            i <= n == state.history@.len(),
            refs@.len() == 2 * i,
            forall|k: int|
                #![trigger state@.history[k]]
                0 <= k < i ==> refs@[2 * k]@ == own_reference(state@.history[k]) && refs@[2 * k
                    + 1]@ == end_reference(state@.history, k),
        decreases n - i,
    {
        let c = &state.history[i];
        assert(state@.history[i as int] == c@);
        let own: String = match &c.message {
            Some(m) => m.clone(),
            None => {
                let mut id: String = String::new();
                push_decimal(&mut id, c.id as u64);
                assert(id@ =~= text::decimal(c.id as nat));
                id
            },
        };
        let mut back: String = "^".to_owned();
        push_decimal(&mut back, (n - i) as u64);
        refs.push(own);
        refs.push(back);
        i += 1;
    }
    refs
}

} // verus!
