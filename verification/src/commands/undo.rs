//! `undo`: stepping back over the newest advance or checkpoint.

use vstd::prelude::*;

use crate::commands::commit;
use crate::commands::commit::push_label;
use crate::path;
use crate::path::short;
use crate::state;
use crate::state::{CommitEntry, EntryView, FileState, FileView, Snap, State, StateView};
use crate::text;
use crate::text::{push_decimal, push_wide_decimal, str_eq};

verus! {

/// Index of the first file at `p`, from `k` on.
pub open spec fn file_at(files: Seq<FileView>, p: Seq<char>, k: int) -> Option<int>
    decreases files.len() - k,
{
    if k < 0 || k >= files.len() {
        None
    } else if files[k].path == p {
        Some(k)
    } else {
        file_at(files, p, k + 1)
    }
}

/// What is said of a cursor that is put back.
pub open spec fn cursor_line(p: Seq<char>, was: u64, now: u64) -> Seq<char> {
    if was != now {
        "  "@ + path::short_of(p) + ": cursor "@ + text::decimal(was as nat) + " → "@
            + text::decimal(now as nat) + "\n"@
    } else {
        Seq::empty()
    }
}

/// The files with the read position that an entry replaced put back.
pub open spec fn put_back(files: Seq<FileView>, e: EntryView) -> Seq<FileView> {
    match file_at(files, e.path, 0) {
        Some(i) => files.update(
            i,
            FileView {
                path: files[i].path,
                dev: e.prev_dev,
                ino: e.prev_ino,
                cursor: e.prev_cursor,
            },
        ),
        None => files,
    }
}

/// The files with the read positions that the entries replaced put back, in order.
pub open spec fn restored(files: Seq<FileView>, entries: Seq<EntryView>) -> Seq<FileView>
    decreases entries.len(),
{
    if entries.len() == 0 {
        files
    } else {
        put_back(restored(files, entries.drop_last()), entries.last())
    }
}

/// What is said while the entries are put back.
pub open spec fn restored_text(files: Seq<FileView>, entries: Seq<EntryView>) -> Seq<char>
    decreases entries.len(),
{
    if entries.len() == 0 {
        Seq::empty()
    } else {
        let e = entries.last();
        let now = restored(files, entries.drop_last());
        restored_text(files, entries.drop_last()) + match file_at(now, e.path, 0) {
            Some(i) => cursor_line(e.path, now[i].cursor, e.prev_cursor),
            None => Seq::empty(),
        }
    }
}

/// The files at the read positions of a snapshot.
pub open spec fn rewound(files: Seq<FileView>, snaps: Seq<Snap>) -> Seq<FileView> {
    Seq::new(
        files.len(),
        |i: int|
            if i < snaps.len() {
                FileView {
                    path: files[i].path,
                    dev: snaps[i].dev,
                    ino: snaps[i].ino,
                    cursor: snaps[i].cursor,
                }
            } else {
                files[i]
            },
    )
}

/// What is said while a snapshot is put back.
pub open spec fn rewound_text(files: Seq<FileView>, snaps: Seq<Snap>) -> Seq<char> {
    text::concat(
        Seq::new(
            files.len(),
            |i: int|
                if i < snaps.len() {
                    cursor_line(files[i].path, files[i].cursor, snaps[i].cursor)
                } else {
                    Seq::empty()
                },
        ),
    )
}

/// The newest step is a checkpoint: no advance was made since the last one.
pub open spec fn newest_is_checkpoint(s: StateView) -> bool {
    s.history.len() > 0 && s.undo.len() <= s.history.last().depth
}

/// How many steps can be undone.
pub open spec fn steps(s: StateView) -> nat {
    s.undo.len() + s.history.len()
}

/// The session one step back.
pub open spec fn undone(s: StateView) -> StateView {
    if newest_is_checkpoint(s) {
        StateView {
            files: restored(s.files, s.history.last().entries),
            next_id: s.history.last().id,
            history: s.history.drop_last(),
            ..s
        }
    } else if s.undo.len() > 0 {
        StateView { files: rewound(s.files, s.undo.last()), undo: s.undo.drop_last(), ..s }
    } else {
        s
    }
}

/// What a step back says.
pub open spec fn undo_text(s: StateView) -> Seq<char> {
    if newest_is_checkpoint(s) {
        let c = s.history.last();
        restored_text(s.files, c.entries) + "undone #"@ + text::decimal(c.id as nat)
            + commit::label(c.message) + "; "@ + text::decimal((s.history.len() - 1) as nat)
            + " checkpoint(s) left\n"@
    } else if s.undo.len() > 0 {
        rewound_text(s.files, s.undo.last()) + "undone; "@ + text::decimal((steps(s) - 1) as nat)
            + " undo left\n"@
    } else {
        "nothing to undo\n"@
    }
}

/// The first file at `p`.
fn find_file(files: &Vec<FileState>, p: &str) -> (at: Option<usize>)
    ensures
        at matches Some(i) ==> i < files@.len() && file_at(state::files_view(files@), p@, 0)
            == Some(i as int) && files@[i as int].path@ == p@,
        at is None ==> file_at(state::files_view(files@), p@, 0) is None,
{
    let ghost view = state::files_view(files@);
    let mut i: usize = 0;
    while i < files.len()
        invariant
            i <= files@.len(),
            view == state::files_view(files@),
            file_at(view, p@, 0) == file_at(view, p@, i as int),
        decreases files@.len() - i,
    {
        assert(view[i as int] == files@[i as int]@);
        if str_eq(files[i].path.as_str(), p) {
            return Some(i);
        }
        i += 1;
    }
    None
}

fn push_cursor_line(s: &mut String, p: &str, was: u64, now: u64)
    ensures
        final(s)@ == old(s)@ + cursor_line(p@, was, now),
{
    if was != now {
        s.append("  ");
        s.append(short(p));
        s.append(": cursor ");
        push_decimal(s, was);
        s.append(" → ");
        push_decimal(s, now);
        s.append("\n");
    }
    assert(s@ =~= old(s)@ + cursor_line(p@, was, now));
}

/// Puts back the read positions that the entries replaced.
fn restore(files: &mut Vec<FileState>, entries: &Vec<CommitEntry>, err: &mut String)
    ensures
        state::files_view(final(files)@) == restored(
            state::files_view(old(files)@),
            state::entries_view(entries@),
        ),
        final(err)@ == old(err)@ + restored_text(
            state::files_view(old(files)@),
            state::entries_view(entries@),
        ),
{
    let ghost start = state::files_view(files@);
    let ghost all = state::entries_view(entries@);
    let mut k: usize = 0;
    assert(all.take(0) =~= Seq::empty());
    assert(err@ =~= old(err)@ + restored_text(start, all.take(0)));
    while k < entries.len()
        invariant
            k <= entries@.len(),
            all == state::entries_view(entries@),
            state::files_view(files@) == restored(start, all.take(k as int)),
            err@ == old(err)@ + restored_text(start, all.take(k as int)),
        decreases entries@.len() - k,
    {
        let ghost before = state::files_view(files@);
        let ghost said = err@;
        let e = &entries[k];
        proof {
            assert(all.take(k + 1).drop_last() =~= all.take(k as int));
            assert(all.take(k + 1).last() == e@);
        }
        if let Some(i) = find_file(files, e.path.as_str()) {
            assert(before[i as int] == files@[i as int]@);
            let was: u64 = files[i].cursor;
            let f = &mut files[i];
            f.cursor = e.prev_cursor;
            f.dev = e.prev_dev;
            f.ino = e.prev_ino;
            push_cursor_line(err, e.path.as_str(), was, e.prev_cursor);
            assert(state::files_view(files@) =~= put_back(before, e@));
            assert(err@ =~= old(err)@ + restored_text(start, all.take(k + 1)));
        } else {
            assert(err@ =~= old(err)@ + restored_text(start, all.take(k + 1)));
        }
        k += 1;
    }
    assert(all.take(k as int) =~= all);
}

/// Puts the files back to the read positions of a snapshot.
fn rewind(files: &mut Vec<FileState>, snaps: &Vec<Snap>, err: &mut String)
    ensures
        state::files_view(final(files)@) == rewound(state::files_view(old(files)@), snaps@),
        final(err)@ == old(err)@ + rewound_text(state::files_view(old(files)@), snaps@),
{
    let ghost start = state::files_view(files@);
    let ghost goal = rewound(start, snaps@);
    let ghost parts = Seq::new(
        start.len(),
        |i: int|
            if i < snaps@.len() {
                cursor_line(start[i].path, start[i].cursor, snaps@[i].cursor)
            } else {
                Seq::empty()
            },
    );
    let mut i: usize = 0;
    assert(parts.take(0) =~= Seq::empty());
    assert(err@ =~= old(err)@ + text::concat(parts.take(0)));
    while i < files.len()
        invariant
            i <= files@.len(),
            files@.len() == start.len(),
            goal == rewound(start, snaps@),
            parts == Seq::new(
                start.len(),
                |i: int|
                    if i < snaps@.len() {
                        cursor_line(start[i].path, start[i].cursor, snaps@[i].cursor)
                    } else {
                        Seq::empty()
                    },
            ),
            forall|k: int| 0 <= k < i ==> (#[trigger] files@[k])@ == goal[k],
            forall|k: int| i <= k < files@.len() ==> (#[trigger] files@[k])@ == start[k],
            err@ == old(err)@ + text::concat(parts.take(i as int)),
        decreases files@.len() - i,
    {
        assert(parts.take(i + 1).drop_last() =~= parts.take(i as int));
        if i < snaps.len() {
            let snap: Snap = snaps[i];
            let was: u64 = files[i].cursor;
            let f = &mut files[i];
            f.cursor = snap.cursor;
            f.dev = snap.dev;
            f.ino = snap.ino;
            push_cursor_line(err, files[i].path.as_str(), was, snap.cursor);
        }
        assert(err@ =~= old(err)@ + text::concat(parts.take(i + 1)));
        i += 1;
    }
    assert(parts.take(i as int) =~= parts);
    assert(state::files_view(files@) =~= goal);
}

/// Reverts the newest `advance` or `commit`, restoring each file's prior cursor.
pub fn undo(state: &mut State, err: &mut String)
    ensures
        final(state)@ == undone(old(state)@),
        final(err)@ == old(err)@ + undo_text(old(state)@),
{
    let ghost s0 = state@;
    let n: usize = state.history.len();
    let newest_checkpoint: bool = n > 0 && state.undo.len() <= state.history[n - 1].depth;
    proof {
        if n > 0 {
            assert(s0.history.last() == state.history@[n - 1]@);
        }
    }
    if newest_checkpoint {
        if let Some(c) = state.history.pop() {
            restore(&mut state.files, &c.entries, err);
            state.next_id = c.id;  // the next commit reuses the id
            err.append("undone #");
            push_decimal(err, c.id as u64);
            push_label(err, &c.message);
            err.append("; ");
            push_decimal(err, state.history.len() as u64);
            err.append(" checkpoint(s) left\n");
            assert(state::history_view(state.history@) =~= s0.history.drop_last());
        }
    } else if let Some(snaps) = state.undo.pop() {
        assert(s0.undo.last() == snaps@);
        rewind(&mut state.files, &snaps, err);
        err.append("undone; ");
        push_wide_decimal(err, state.undo.len() as u128 + state.history.len() as u128);
        err.append(" undo left\n");
        assert(state::undo_view(state.undo@) =~= s0.undo.drop_last());
    } else {
        err.append("nothing to undo\n");
    }
    assert(state@ =~= undone(s0));
    assert(err@ =~= old(err)@ + undo_text(s0));
}

} // verus!
