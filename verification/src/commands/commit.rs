//! `advance` and `commit`: moving the cursors past the new lines.

use vstd::prelude::*;

use crate::clock;
use crate::clock::now_hms;
use crate::commands::moving;
use crate::commands::moving::read_all;
use crate::commands::select;
use crate::commands::select::select;
use crate::fs::Fs;
use crate::state;
use crate::state::{Commit, CommitView, FileState, FileView, Snap, State, StateView};
use crate::text;
use crate::text::push_decimal;

verus! {

/// At most this many checkpoints are remembered.
pub const MAX_HISTORY: usize = 200;

/// The read position of a file.
pub open spec fn snap_of(f: FileView) -> Snap {
    Snap { cursor: f.cursor, dev: f.dev, ino: f.ino }
}

/// The read position of each file.
pub open spec fn snaps_of(files: Seq<FileView>) -> Seq<Snap> {
    Seq::new(files.len(), |i: int| snap_of(files[i]))
}

/// The newest checkpoints, as many as are remembered.
pub open spec fn newest(history: Seq<CommitView>) -> Seq<CommitView> {
    if history.len() > MAX_HISTORY {
        history.skip(history.len() - MAX_HISTORY)
    } else {
        history
    }
}

/// The id of the next checkpoint.
pub open spec fn fresh_id(s: StateView) -> u32 {
    if s.next_id == 0 {
        1
    } else {
        s.next_id
    }
}

/// A checkpoint's message, as it follows its id.
pub open spec fn label(message: Option<Seq<char>>) -> Seq<char> {
    match message {
        Some(m) => " \""@ + m + "\""@,
        None => Seq::empty(),
    }
}

/// The session after an advance over the targets: the files read, and where any record
/// changed, the previous read positions on the undo stack.
pub open spec fn advanced<F: Fs>(fs: &F, s: StateView, sel: Seq<int>) -> StateView {
    let run = moving::read_files(fs, s.files, sel, "advancing past "@);
    if run.entries.len() == 0 {
        StateView { files: run.files, ..s }
    } else {
        StateView { files: run.files, undo: s.undo.push(snaps_of(s.files)), ..s }
    }
}

/// What an advance says.
pub open spec fn advance_text<F: Fs>(fs: &F, s: StateView, sel: Seq<int>) -> Seq<char> {
    let run = moving::read_files(fs, s.files, sel, "advancing past "@);
    run.notes + if run.entries.len() == 0 {
        "nothing to advance\n"@
    } else {
        run.lines
    }
}

/// The checkpoint that a commit over the targets records.
pub open spec fn checkpoint<F: Fs>(
    fs: &F,
    s: StateView,
    sel: Seq<int>,
    message: Option<Seq<char>>,
    created_at: Option<Seq<char>>,
) -> CommitView {
    CommitView {
        id: fresh_id(s),
        created_at,
        message,
        entries: moving::read_files(fs, s.files, sel, ""@).entries,
        depth: s.undo.len() as usize,
    }
}

/// The session after a commit over the targets: the files read, and where any record
/// changed, a checkpoint in the history.
pub open spec fn committed<F: Fs>(
    fs: &F,
    s: StateView,
    sel: Seq<int>,
    message: Option<Seq<char>>,
    created_at: Option<Seq<char>>,
) -> StateView {
    let run = moving::read_files(fs, s.files, sel, ""@);
    if run.entries.len() == 0 {
        StateView { files: run.files, ..s }
    } else {
        StateView {
            files: run.files,
            next_id: (fresh_id(s) + 1) as u32,
            history: newest(s.history.push(checkpoint(fs, s, sel, message, created_at))),
            ..s
        }
    }
}

/// Whether the ids suffice for a commit: one is left, or none is needed.
pub open spec fn id_left<F: Fs>(fs: &F, s: StateView, names: Seq<Seq<char>>) -> bool {
    s.next_id < u32::MAX || match select::selection(s.files, names) {
        Ok(sel) => moving::read_files(fs, s.files, sel, ""@).entries.len() == 0,
        Err(_) => true,
    }
}

/// What a commit says.
pub open spec fn commit_text<F: Fs>(
    fs: &F,
    s: StateView,
    sel: Seq<int>,
    message: Option<Seq<char>>,
) -> Seq<char> {
    let run = moving::read_files(fs, s.files, sel, ""@);
    run.notes + if run.entries.len() == 0 {
        "nothing to commit\n"@
    } else {
        "committed #"@ + text::decimal(fresh_id(s) as nat) + label(message) + ":\n"@ + run.lines
    }
}

/// The read position of each file.
fn snapshot(files: &Vec<FileState>) -> (snaps: Vec<Snap>)
    ensures
        snaps@ == snaps_of(state::files_view(files@)),
{
    let mut snaps: Vec<Snap> = Vec::new();
    let mut i: usize = 0;
    while i < files.len()
        invariant
            i <= files@.len(),
            snaps@.len() == i,
            forall|k: int| 0 <= k < i ==> #[trigger] snaps@[k] == snap_of(files@[k]@),
        decreases files@.len() - i,
    {
        let f = &files[i];
        snaps.push(Snap { cursor: f.cursor, dev: f.dev, ino: f.ino });
        i += 1;
    }
    assert(snaps@ =~= snaps_of(state::files_view(files@)));
    snaps
}

pub fn push_label(s: &mut String, message: &Option<String>)
    ensures
        final(s)@ == old(s)@ + label(state::text_of(*message)),
{
    if let Some(m) = message {
        s.append(" \"");
        s.append(m.as_str());
        s.append("\"");
    }
    assert(s@ =~= old(s)@ + label(state::text_of(*message)));
}

/// Moves each cursor past the new lines, so that `undo` can restore it. Reports how many.
pub fn advance<F: Fs>(state: &mut State, fs: &F, names: &[String], err: &mut String) -> (r: Result<
    (),
    String,
>)
    ensures
        match select::selection(old(state)@.files, state::names_view(names@)) {
            Ok(sel) => r is Ok && final(state)@ == advanced(fs, old(state)@, sel) && final(err)@
                == old(err)@ + advance_text(fs, old(state)@, sel),
            Err(name) => r is Err && r->Err_0@ == select::not_in_session(name) && final(state)@
                == old(state)@ && final(err)@ == old(err)@,
        },
{
    let sel: Vec<usize> = match select(state, names) {
        Ok(sel) => sel,
        Err(e) => return Err(e),
    };
    proof {
        assert forall|k: int| 0 <= k < sel@.len() implies #[trigger] sel@[k] < state.files@.len() by {
            assert(select::indices(sel@)[k] == sel@[k]);
        }
    }
    let ghost undo = state::undo_view(state.undo@);
    let snaps: Vec<Snap> = snapshot(&state.files);
    let run = read_all(fs, &mut state.files, &sel, "advancing past ");
    err.append(run.notes.as_str());
    if run.entries.len() == 0 {
        err.append("nothing to advance\n");
    } else {
        err.append(run.lines.as_str());
        state.undo.push(snaps);
        assert(state::undo_view(state.undo@) =~= undo.push(snaps@));
    }
    proof {
        let sel = select::indices(sel@);
        assert(state@ =~= advanced(fs, old(state)@, sel));
        assert(err@ =~= old(err)@ + advance_text(fs, old(state)@, sel));
    }
    Ok(())
}

/// Moves each cursor past the new lines, recording a checkpoint in the history (so that
/// `undo` can revert it and `show_at` can re-read it). Reports how many lines.
/// `created_at` is the time of day with which the checkpoint is stamped.
pub fn commit<F: Fs>(
    state: &mut State,
    fs: &F,
    names: &[String],
    message: Option<String>,
    created_at: Option<String>,
    err: &mut String,
) -> (r: Result<(), String>)
    requires
        id_left(fs, old(state)@, state::names_view(names@)),
    ensures
        match select::selection(old(state)@.files, state::names_view(names@)) {
            Ok(sel) => r is Ok && final(state)@ == committed(
                fs,
                old(state)@,
                sel,
                state::text_of(message),
                state::text_of(created_at),
            ) && final(err)@ == old(err)@ + commit_text(
                fs,
                old(state)@,
                sel,
                state::text_of(message),
            ),
            Err(name) => r is Err && r->Err_0@ == select::not_in_session(name) && final(state)@
                == old(state)@ && final(err)@ == old(err)@,
        },
{
    let sel: Vec<usize> = match select(state, names) {
        Ok(sel) => sel,
        Err(e) => return Err(e),
    };
    proof {
        assert forall|k: int| 0 <= k < sel@.len() implies #[trigger] sel@[k] < state.files@.len() by {
            assert(select::indices(sel@)[k] == sel@[k]);
        }
    }
    let ghost s0 = state@;
    let ghost targets = select::indices(sel@);
    let ghost label_text = state::text_of(message);
    let ghost stamp = state::text_of(created_at);
    let run = read_all(fs, &mut state.files, &sel, "");
    err.append(run.notes.as_str());
    if run.entries.len() == 0 {
        err.append("nothing to commit\n");
        proof {
            assert(state@ =~= committed(fs, s0, targets, label_text, stamp));
            assert(err@ =~= old(err)@ + commit_text(fs, s0, targets, label_text));
        }
        return Ok(());
    }
    let id: u32 = if state.next_id == 0 {
        1
    } else {
        state.next_id
    };
    state.next_id = id + 1;
    err.append("committed #");
    push_decimal(err, id as u64);
    push_label(err, &message);
    err.append(":\n");
    err.append(run.lines.as_str());
    let c = Commit { id, created_at, message, entries: run.entries, depth: state.undo.len() };
    state.history.push(c);
    let ghost grown = s0.history.push(checkpoint(fs, s0, targets, label_text, stamp));
    proof {
        assert(c@ =~= checkpoint(fs, s0, targets, label_text, stamp));
        assert(state::history_view(state.history@) =~= grown);
    }
    let len: usize = state.history.len();
    if len > MAX_HISTORY {
        let kept: Vec<Commit> = state.history.split_off(len - MAX_HISTORY);
        state.history = kept;
        assert(state::history_view(state.history@) =~= newest(grown));
    }
    proof {
        assert(state@ =~= committed(fs, s0, targets, label_text, stamp));
        assert(err@ =~= old(err)@ + commit_text(fs, s0, targets, label_text));
    }
    Ok(())
}

/// [`commit`], stamped with the current time of day.
pub fn commit_now<F: Fs>(
    state: &mut State,
    fs: &F,
    names: &[String],
    message: Option<String>,
    err: &mut String,
) -> (r: Result<(), String>)
    requires
        id_left(fs, old(state)@, state::names_view(names@)),
    ensures
        match select::selection(old(state)@.files, state::names_view(names@)) {
            Ok(sel) => {
                &&& r is Ok
                &&& exists|stamp: Option<Seq<char>>| #[trigger]
                    clock::is_stamp(stamp) && final(state)@ == committed(
                        fs,
                        old(state)@,
                        sel,
                        state::text_of(message),
                        stamp,
                    )
                &&& final(err)@ == old(err)@ + commit_text(
                    fs,
                    old(state)@,
                    sel,
                    state::text_of(message),
                )
            },
            Err(name) => r is Err && r->Err_0@ == select::not_in_session(name) && final(state)@
                == old(state)@ && final(err)@ == old(err)@,
        },
{
    let created_at: Option<String> = now_hms();
    let ghost stamp = state::text_of(created_at);
    assert(clock::is_stamp(stamp));
    commit(state, fs, names, message, created_at, err)
}

} // verus!
