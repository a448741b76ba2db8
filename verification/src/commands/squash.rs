//! `squash`: folding the pending lines into the newest checkpoint.

use vstd::prelude::*;

use crate::commands::commit;
use crate::commands::commit::push_label;
use crate::commands::moving;
use crate::commands::moving::read_all;
use crate::commands::select;
use crate::commands::select::select;
use crate::commands::undo;
use crate::fs::Fs;
use crate::state;
use crate::state::{CommitEntry, CommitView, EntryView, State, StateView};
use crate::text;
use crate::text::{push_decimal, str_eq};

verus! {

/// Index of the first entry of a path, from `k` on.
pub open spec fn entry_at(entries: Seq<EntryView>, p: Seq<char>, k: int) -> Option<int>
    decreases entries.len() - k,
{
    if k < 0 || k >= entries.len() {
        None
    } else if entries[k].path == p {
        Some(k)
    } else {
        entry_at(entries, p, k + 1)
    }
}

/// The sum of two line counts.
pub open spec fn line_sum(a: usize, b: usize) -> usize {
    if a + b <= usize::MAX {
        (a + b) as usize
    } else {
        usize::MAX
    }
}

/// An entry that takes in a newly read range of its file. A range that continues the
/// recorded one extends it; after a rotation or truncation it takes its place. What the
/// entry replaced stays, so that undoing it reverts both.
pub open spec fn extended(e: EntryView, new: EntryView) -> EntryView {
    if e.dev == new.dev && e.ino == new.ino && e.to == new.from {
        EntryView { to: new.to, lines: line_sum(e.lines, new.lines), ..e }
    } else {
        EntryView {
            from: new.from,
            to: new.to,
            dev: new.dev,
            ino: new.ino,
            lines: new.lines,
            ..e
        }
    }
}

/// The entries of a checkpoint with a newly read range taken in.
pub open spec fn folded_one(entries: Seq<EntryView>, new: EntryView) -> Seq<EntryView> {
    match entry_at(entries, new.path, 0) {
        Some(k) => entries.update(k, extended(entries[k], new)),
        None => entries.push(new),
    }
}

/// The entries of a checkpoint with newly read ranges taken in.
pub open spec fn folded(entries: Seq<EntryView>, new: Seq<EntryView>) -> Seq<EntryView>
    decreases new.len(),
{
    if new.len() == 0 {
        entries
    } else {
        folded_one(folded(entries, new.drop_last()), new.last())
    }
}

/// The session after a squash over the targets: the files read, and what was new in them
/// taken into the newest checkpoint, which keeps its id, time and message.
pub open spec fn squashed<F: Fs>(fs: &F, s: StateView, sel: Seq<int>) -> StateView {
    let run = moving::read_files(fs, s.files, sel, ""@);
    let c = s.history.last();
    StateView {
        files: run.files,
        history: s.history.update(
            s.history.len() - 1,
            CommitView { entries: folded(c.entries, run.entries), ..c },
        ),
        ..s
    }
}

/// What a squash says.
pub open spec fn squash_text<F: Fs>(fs: &F, s: StateView, sel: Seq<int>) -> Seq<char> {
    let run = moving::read_files(fs, s.files, sel, ""@);
    let c = s.history.last();
    run.notes + if run.entries.len() == 0 {
        "nothing to squash\n"@
    } else {
        "squashed into #"@ + text::decimal(c.id as nat) + commit::label(c.message) + ":\n"@
            + run.lines
    }
}

pub fn find_entry(entries: &Vec<CommitEntry>, p: &str) -> (at: Option<usize>)
    ensures
        at matches Some(k) ==> k < entries@.len() && entry_at(
            state::entries_view(entries@),
            p@,
            0,
        ) == Some(k as int),
        at is None ==> entry_at(state::entries_view(entries@), p@, 0) is None,
{
    let ghost view = state::entries_view(entries@);
    let mut k: usize = 0;
    while k < entries.len()
        invariant
            k <= entries@.len(),
            view == state::entries_view(entries@),
            entry_at(view, p@, 0) == entry_at(view, p@, k as int),
        decreases entries@.len() - k,
    {
        assert(view[k as int] == entries@[k as int]@);
        if str_eq(entries[k].path.as_str(), p) {
            return Some(k);
        }
        k += 1;
    }
    None
}

/// Takes a newly read range into the entries of a checkpoint.
fn fold_one(entries: &mut Vec<CommitEntry>, new: CommitEntry)
    ensures
        state::entries_view(final(entries)@) == folded_one(
            state::entries_view(old(entries)@),
            new@,
        ),
{
    let ghost before = state::entries_view(entries@);
    match find_entry(entries, new.path.as_str()) {
        Some(k) => {
            assert(before[k as int] == entries@[k as int]@);
            let e = &mut entries[k];
            if e.dev == new.dev && e.ino == new.ino && e.to == new.from {
                e.lines = e.lines.saturating_add(new.lines);
            } else {
                e.from = new.from;
                e.dev = new.dev;
                e.ino = new.ino;
                e.lines = new.lines;
            }
            e.to = new.to;
            assert(state::entries_view(entries@) =~= folded_one(before, new@));
        },
        None => {
            entries.push(new);
            assert(state::entries_view(entries@) =~= folded_one(before, new@));
        },
    }
}

/// Takes newly read ranges into the entries of a checkpoint.
fn fold(entries: &mut Vec<CommitEntry>, new: Vec<CommitEntry>)
    ensures
        state::entries_view(final(entries)@) == folded(
            state::entries_view(old(entries)@),
            state::entries_view(new@),
        ),
{
    let ghost start = state::entries_view(entries@);
    let ghost all = state::entries_view(new@);
    let mut k: usize = 0;
    assert(all.take(0) =~= Seq::empty());
    while k < new.len()
        invariant
            k <= new@.len(),
            all == state::entries_view(new@),
            state::entries_view(entries@) == folded(start, all.take(k as int)),
        decreases new@.len() - k,
    {
        assert(all.take(k + 1).drop_last() =~= all.take(k as int));
        assert(all.take(k + 1).last() == new@[k as int]@);
        let n = &new[k];
        let copy = CommitEntry {
            path: n.path.clone(),
            from: n.from,
            to: n.to,
            dev: n.dev,
            ino: n.ino,
            lines: n.lines,
            prev_cursor: n.prev_cursor,
            prev_dev: n.prev_dev,
            prev_ino: n.prev_ino,
        };
        assert(copy@ =~= n@);
        fold_one(entries, copy);
        k += 1;
    }
    assert(all.take(k as int) =~= all);
}

/// Folds the pending lines into the newest checkpoint instead of recording a new one: its
/// committed range extends to the current cursor. Fails where the newest step of the
/// session is no checkpoint.
pub fn squash<F: Fs>(state: &mut State, fs: &F, names: &[String], err: &mut String) -> (r: Result<
    (),
    String,
>)
    ensures
        match select::selection(old(state)@.files, state::names_view(names@)) {
            Ok(sel) => if undo::newest_is_checkpoint(old(state)@) {
                r is Ok && final(state)@ == squashed(fs, old(state)@, sel) && final(err)@
                    == old(err)@ + squash_text(fs, old(state)@, sel)
            } else {
                r is Err && r->Err_0@ == "no checkpoint to squash into"@ && final(state)@
                    == old(state)@ && final(err)@ == old(err)@
            },
            Err(name) => r is Err && r->Err_0@ == select::not_in_session(name) && final(state)@
                == old(state)@ && final(err)@ == old(err)@,
        },
{
    let sel: Vec<usize> = match select(state, names) {
        Ok(sel) => sel,
        Err(e) => return Err(e),
    };
    let ghost s0 = state@;
    let ghost targets = select::indices(sel@);
    let n: usize = state.history.len();
    proof {
        assert forall|k: int| 0 <= k < sel@.len() implies #[trigger] sel@[k] < state.files@.len() by {
            assert(targets[k] == sel@[k]);
        }
        if n > 0 {
            assert(s0.history.last() == state.history@[n - 1]@);
        }
    }
    if n == 0 || state.undo.len() > state.history[n - 1].depth {
        return Err("no checkpoint to squash into".to_owned());
    }
    let run = read_all(fs, &mut state.files, &sel, "");
    err.append(run.notes.as_str());
    if run.entries.len() == 0 {
        err.append("nothing to squash\n");
    } else {
        err.append("squashed into #");
        push_decimal(err, state.history[n - 1].id as u64);
        push_label(err, &state.history[n - 1].message);
        err.append(":\n");
        err.append(run.lines.as_str());
    }
    let ghost before = state.history@;
    let c = &mut state.history[n - 1];
    fold(&mut c.entries, run.entries);
    proof {
        let goal = squashed(fs, s0, targets);
        assert forall|k: int| 0 <= k < n implies (#[trigger] state.history@[k])@ == goal.history[k] by {
            if k == n - 1 {
                assert(state.history@[k]@ =~= goal.history[k]);
            } else {
                assert(state.history@[k] == before[k]);
                assert(s0.history[k] == before[k]@);
            }
        }
        assert(state::history_view(state.history@) =~= goal.history);
        assert(state@ =~= goal);
        assert(err@ =~= old(err)@ + squash_text(fs, s0, targets));
    }
    Ok(())
}

} // verus!
