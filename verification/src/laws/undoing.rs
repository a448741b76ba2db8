//! Stepping back.

use vstd::prelude::*;

use crate::commands::undo;
use crate::laws::squashing;
use crate::laws::stepping;
use crate::path;
use crate::state::{EntryView, FileView, Snap, StateView};
use crate::text;

verus! {

/// Where a checkpoint is the newest step, undo puts every file that it recorded back to
/// where it was before, whatever became of the file since.
pub proof fn undo_puts_back_every_recorded_file(s: StateView, k: int, i: int)
    requires
        s.history.len() > 0,
        s.undo.len() <= s.history.last().depth,
        stepping::distinct_paths(s.history.last().entries),
        squashing::separate(s.files),
        0 <= k < s.history.last().entries.len(),
        0 <= i < s.files.len(),
        s.files[i].path == s.history.last().entries[k].path,
    ensures
        ({
            let e = s.history.last().entries[k];
            undo::undone(s).files[i] == FileView {
                path: s.files[i].path,
                dev: e.prev_dev,
                ino: e.prev_ino,
                cursor: e.prev_cursor,
            }
        }),
{
    let entries = s.history.last().entries;
    stepping::lemma_restored(s.files, entries, i);
    stepping::lemma_entry_unique(entries, k);
    lemma_file_is_first(s.files, i);
}

proof fn lemma_file_is_first(files: Seq<FileView>, i: int)
    requires
        squashing::separate(files),
        0 <= i < files.len(),
    ensures
        undo::file_at(files, files[i].path, 0) == Some(i),
{
    stepping::lemma_file_at(files, files[i].path, 0);
    match undo::file_at(files, files[i].path, 0) {
        Some(j) => {
            if j < i {
                assert(files[j].path != files[i].path);
            }
        },
        None => {
            assert(files[i].path != files[i].path);
        },
    }
}

/// It leaves every other file as it is, drops the checkpoint and only that one, and gives
/// its id back.
pub proof fn undo_leaves_other_files(s: StateView, i: int)
    requires
        s.history.len() > 0,
        s.undo.len() <= s.history.last().depth,
        stepping::distinct_paths(s.history.last().entries),
        0 <= i < s.files.len(),
    ensures
        undo::undone(s).files.len() == s.files.len(),
        undo::undone(s).files[i].path == s.files[i].path,
        (forall|k: int|
            0 <= k < s.history.last().entries.len() ==> (
            #[trigger] s.history.last().entries[k]).path != s.files[i].path)
            ==> undo::undone(s).files[i] == s.files[i],
        undo::undone(s).history == s.history.drop_last(),
        undo::undone(s).next_id == s.history.last().id,
        undo::undone(s).undo == s.undo,
{
    let entries = s.history.last().entries;
    stepping::lemma_restored(s.files, entries, i);
    stepping::lemma_entry_at(entries, s.files[i].path, 0);
}

/// Where an advance is the newest step, undo puts every file back to where it was before,
/// and leaves the checkpoints alone.
pub proof fn undo_of_an_advance_puts_every_file_back(s: StateView, i: int)
    requires
        s.undo.len() > 0,
        s.history.len() > 0 ==> s.history.last().depth < s.undo.len(),
        0 <= i < s.files.len() == s.undo.last().len(),
    ensures
        undo::undone(s).files.len() == s.files.len(),
        undo::undone(s).files[i] == (FileView {
            path: s.files[i].path,
            dev: s.undo.last()[i].dev,
            ino: s.undo.last()[i].ino,
            cursor: s.undo.last()[i].cursor,
        }),
        undo::undone(s).undo == s.undo.drop_last(),
        undo::undone(s).history == s.history,
        undo::undone(s).next_id == s.next_id,
{
}

/// Without a step there is nothing to undo.
pub proof fn nothing_is_undone_without_a_step(s: StateView)
    requires
        s.undo.len() == 0,
        s.history.len() == 0,
    ensures
        undo::undone(s) == s,
        undo::undo_text(s) == "nothing to undo\n"@,
{
}

/// Undo goes through the entries of the checkpoint one after the other. The first file at
/// the path of one more entry is put back to what that entry replaced, and of it undo tells
/// last: the cursor before and after, where they differ.
pub proof fn undo_goes_entry_by_entry(
    files: Seq<FileView>,
    entries: Seq<EntryView>,
    e: EntryView,
    i: int,
)
    requires
        0 <= i < files.len(),
        files[i].path == e.path,
        forall|j: int| 0 <= j < i ==> (#[trigger] files[j]).path != e.path,
    ensures
        undo::restored(files, Seq::empty()) == files,
        undo::restored_text(files, Seq::empty()).len() == 0,
        ({
            let now = undo::restored(files, entries);
            &&& now.len() == files.len()
            &&& now[i].path == e.path
            &&& undo::restored(files, entries.push(e)) == now.update(
                i,
                FileView {
                    path: e.path,
                    dev: e.prev_dev,
                    ino: e.prev_ino,
                    cursor: e.prev_cursor,
                },
            )
            &&& undo::restored_text(files, entries.push(e)) == undo::restored_text(files, entries)
                + (if now[i].cursor == e.prev_cursor {
                Seq::empty()
            } else {
                "  "@ + path::short_of(e.path) + ": cursor "@ + text::decimal(now[i].cursor as nat)
                    + " → "@ + text::decimal(e.prev_cursor as nat) + "\n"@
            })
        }),
{
    assert(entries.push(e).drop_last() =~= entries);
    lemma_restored_paths(files, entries);
    let now = undo::restored(files, entries);
    assert forall|j: int| 0 <= j < i implies (#[trigger] now[j]).path != e.path by {
        assert(files[j].path != e.path);
    }
    stepping::lemma_file_at(now, e.path, 0);
    match undo::file_at(now, e.path, 0) {
        Some(k) => {
            if k < i {
                assert(now[k].path != e.path);
            }
            if i < k {
                assert(now[i].path != e.path);
            }
        },
        None => {
            assert(now[i].path != e.path);
        },
    }
}

/// An entry of a path that is not watched any more is passed over.
pub proof fn undo_passes_over_unwatched_paths(
    files: Seq<FileView>,
    entries: Seq<EntryView>,
    e: EntryView,
)
    requires
        forall|j: int| 0 <= j < files.len() ==> (#[trigger] files[j]).path != e.path,
    ensures
        undo::restored(files, entries.push(e)) == undo::restored(files, entries),
        undo::restored_text(files, entries.push(e)) == undo::restored_text(files, entries),
{
    assert(entries.push(e).drop_last() =~= entries);
    lemma_restored_paths(files, entries);
    let now = undo::restored(files, entries);
    stepping::lemma_file_at(now, e.path, 0);
    if let Some(k) = undo::file_at(now, e.path, 0) {
        assert(files[k].path != e.path);
    }
    assert(undo::restored_text(files, entries) + Seq::<char>::empty() =~= undo::restored_text(
        files,
        entries,
    ));
}

proof fn lemma_restored_paths(files: Seq<FileView>, entries: Seq<EntryView>)
    ensures
        undo::restored(files, entries).len() == files.len(),
        forall|j: int|
            0 <= j < files.len() ==> (#[trigger] undo::restored(files, entries)[j]).path
                == files[j].path,
    decreases entries.len(),
{
    if entries.len() > 0 {
        lemma_restored_paths(files, entries.drop_last());
        stepping::lemma_file_at(
            undo::restored(files, entries.drop_last()),
            entries.last().path,
            0,
        );
    }
}

/// Of one more file, undoing an advance tells last, in the same way.
pub proof fn undo_of_an_advance_tells_of_each_cursor(
    files: Seq<FileView>,
    snaps: Seq<Snap>,
    f: FileView,
    snap: Snap,
)
    requires
        files.len() == snaps.len(),
    ensures
        undo::rewound_text(Seq::empty(), Seq::empty()).len() == 0,
        undo::rewound_text(files.push(f), snaps.push(snap)) == undo::rewound_text(files, snaps) + (
        if f.cursor == snap.cursor {
            Seq::empty()
        } else {
            "  "@ + path::short_of(f.path) + ": cursor "@ + text::decimal(f.cursor as nat) + " → "@
                + text::decimal(snap.cursor as nat) + "\n"@
        }),
{
    let more = files.push(f);
    let more_snaps = snaps.push(snap);
    let parts = Seq::new(
        files.len(),
        |i: int|
            if i < snaps.len() {
                undo::cursor_line(files[i].path, files[i].cursor, snaps[i].cursor)
            } else {
                Seq::empty()
            },
    );
    let more_parts = Seq::new(
        more.len(),
        |i: int|
            if i < more_snaps.len() {
                undo::cursor_line(more[i].path, more[i].cursor, more_snaps[i].cursor)
            } else {
                Seq::empty()
            },
    );
    assert(more_parts.drop_last() =~= parts);
}

/// After the cursors, undo tells which checkpoint is gone and how many are left, or how
/// many steps are.
pub proof fn undo_tells_what_is_left(s: StateView)
    requires
        s.history.len() > 0 || s.undo.len() > 0,
    ensures
        ({
            let back = undo::undone(s);
            if s.history.len() > 0 && s.undo.len() <= s.history.last().depth {
                let c = s.history.last();
                undo::undo_text(s) == undo::restored_text(s.files, c.entries) + "undone #"@
                    + text::decimal(c.id as nat) + (match c.message {
                    Some(m) => " \""@ + m + "\""@,
                    None => Seq::empty(),
                }) + "; "@ + text::decimal(back.history.len()) + " checkpoint(s) left\n"@
            } else if s.undo.len() > 0 {
                undo::undo_text(s) == undo::rewound_text(s.files, s.undo.last()) + "undone; "@
                    + text::decimal(back.undo.len() + back.history.len()) + " undo left\n"@
            } else {
                true
            }
        }),
{
}

} // verus!
