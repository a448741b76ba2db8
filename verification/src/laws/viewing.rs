//! What the viewer displays.

use vstd::prelude::*;

use crate::commands::recall;
use crate::commands::show;
use crate::commands::squash;
use crate::complete;
use crate::cursor;
use crate::cursor::Event;
use crate::fs::Fs;
use crate::laws::showing;
use crate::laws::stepping;
use crate::state::{CommitView, EntryView, StateView};
use crate::text;
use crate::viewer;
use crate::viewer::Snapshot;

verus! {

/// The live slice of a file is what `show` prints of it, with a note where the file is not
/// there, was replaced or cut.
pub proof fn live_slice_is_what_show_prints<F: Fs>(fs: &F, s: StateView, i: int)
    requires
        0 <= i < s.files.len(),
    ensures
        ({
            let f = s.files[i];
            let (bytes, note) = viewer::slice_of(fs, s, i, Snapshot::Uncommitted);
            &&& bytes == show::shown_out(fs, f, false)
            &&& note == match cursor::event_of(f, fs.stat_of(f.path)) {
                Event::Same | Event::Appeared => None,
                Event::Missing => Some("not present"@),
                Event::Disappeared => Some("disappeared since last seen"@),
                Event::Truncated => Some("⚠ truncated (shrank) — reading from start"@),
                Event::Rotated => Some(
                    "⚠ identity changed (rotated/replaced) — reading the new file from start"@,
                ),
            }
        }),
{
}

/// The slice of a file in a checkpoint is what a recall prints of it, while it can be read.
pub proof fn checkpoint_slice_is_what_recall_prints<F: Fs>(
    fs: &F,
    s: StateView,
    i: int,
    k: int,
    j: int,
)
    requires
        0 <= i < s.files.len(),
        0 <= k < s.history.len(),
        forall|x: int| 0 <= x < k ==> (#[trigger] s.history[x]).id != s.history[k].id,
        0 <= j < s.history[k].entries.len(),
        s.history[k].entries[j].path == s.files[i].path,
        forall|x: int|
            0 <= x < j ==> (#[trigger] s.history[k].entries[x]).path != s.files[i].path,
    ensures
        ({
            let e = s.history[k].entries[j];
            let (bytes, note) = viewer::slice_of(
                fs,
                s,
                i,
                Snapshot::Checkpoint(s.history[k].id),
            );
            &&& bytes == recall::recalled_out(fs, e, false)
            &&& note == (if recall::available(fs, e) {
                None
            } else {
                Some("unavailable (file rotated/truncated since commit)"@)
            })
        }),
{
    lemma_id(s.history, s.history[k].id, k, 0);
    lemma_entry(s.history[k].entries, s.files[i].path, j, 0);
}

proof fn lemma_id(h: Seq<CommitView>, id: u32, k: int, x: int)
    requires
        0 <= x <= k < h.len(),
        h[k].id == id,
        forall|y: int| x <= y < k ==> (#[trigger] h[y]).id != id,
    ensures
        recall::with_id(h, id, x) == Some(k),
    decreases k - x,
{
    if x < k {
        assert(h[x].id != id);
        lemma_id(h, id, k, x + 1);
    }
}

proof fn lemma_entry(entries: Seq<EntryView>, p: Seq<char>, j: int, x: int)
    requires
        0 <= x <= j < entries.len(),
        entries[j].path == p,
        forall|y: int| x <= y < j ==> (#[trigger] entries[y]).path != p,
    ensures
        squash::entry_at(entries, p, x) == Some(j),
    decreases j - x,
{
    if x < j {
        assert(entries[x].path != p);
        lemma_entry(entries, p, j, x + 1);
    }
}

/// A file that a checkpoint did not record, and one of a checkpoint that there is not, has
/// no slice in it.
pub proof fn other_files_have_no_slice<F: Fs>(fs: &F, s: StateView, i: int, id: u32)
    requires
        0 <= i < s.files.len(),
        forall|k: int, j: int|
            #![trigger s.history[k].entries[j]]
            0 <= k < s.history.len() && s.history[k].id == id && 0 <= j
                < s.history[k].entries.len() ==> s.history[k].entries[j].path != s.files[i].path,
    ensures
        viewer::slice_of(fs, s, i, Snapshot::Checkpoint(id)).0.len() == 0,
        viewer::slice_of(fs, s, i, Snapshot::Checkpoint(id)).1 == Some(
            "not part of this checkpoint"@,
        ),
{
    lemma_found_id(s.history, id, 0);
    if let Some(k) = recall::with_id(s.history, id, 0) {
        stepping::lemma_entry_at(s.history[k].entries, s.files[i].path, 0);
        if let Some(j) = squash::entry_at(s.history[k].entries, s.files[i].path, 0) {
            assert(s.history[k].entries[j].path != s.files[i].path);
        }
    }
}

proof fn lemma_found_id(h: Seq<CommitView>, id: u32, x: int)
    requires
        0 <= x <= h.len(),
    ensures
        recall::with_id(h, id, x) matches Some(k) ==> 0 <= k < h.len() && h[k].id == id,
    decreases h.len() - x,
{
    if x < h.len() {
        lemma_found_id(h, id, x + 1);
    }
}

/// There is no slice of a file that there is not.
pub proof fn no_file_no_slice<F: Fs>(fs: &F, s: StateView, i: int, snapshot: Snapshot)
    requires
        i >= s.files.len(),
    ensures
        viewer::slice_of(fs, s, i, snapshot) == (Seq::<u8>::empty(), None::<Seq<char>>),
{
}

/// A displayed line is the line without its newline: it holds none, and with it, it is the
/// line again. Only the last line may have had none.
pub proof fn displayed_lines_lack_their_newline(b: Seq<u8>, k: int)
    requires
        0 <= k < viewer::lines_of(b).len(),
    ensures
        viewer::displayed(b).len() == viewer::lines_of(b).len(),
        forall|i: int| 0 <= i < viewer::displayed(b)[k].len() ==> viewer::displayed(b)[k][i] != 10u8,
        viewer::lines_of(b)[k] == viewer::displayed(b)[k].push(10u8) || (k
            == viewer::lines_of(b).len() - 1 && viewer::lines_of(b)[k] == viewer::displayed(b)[k]),
    decreases b.len(),
{
    if b.len() > 0 {
        showing::first_line_ends_at_first_newline(b);
        let n = show::first_line_len(b) as int;
        let rest = b.skip(n);
        let head = b.take(n);
        assert(viewer::lines_of(b) == seq![head] + viewer::lines_of(rest));
        if k == 0 {
            assert(viewer::lines_of(b)[0] == head);
            assert(head.last() == b[n - 1]);
            if b[n - 1] == 10u8 {
                assert(head =~= viewer::displayed(b)[0].push(10u8));
            } else {
                assert(rest.len() == 0);
                assert(viewer::lines_of(rest).len() == 0);
            }
        } else {
            assert(viewer::lines_of(b)[k] == viewer::lines_of(rest)[k - 1]);
            displayed_lines_lack_their_newline(rest, k - 1);
        }
    }
}

/// The label of a checkpoint: its id, time and message, nothing for what it has not.
pub proof fn label_tells_of_the_checkpoint(c: CommitView)
    ensures
        viewer::checkpoint_label(c) == "#"@ + text::decimal(c.id as nat) + "  "@ + (
        match c.created_at {
            Some(t) => t,
            None => Seq::empty(),
        }) + "  "@ + (match c.message {
            Some(m) => m,
            None => Seq::empty(),
        }),
{
}

/// An error comes before everything else; lines come before a message; a note before the
/// word that nothing is there.
pub proof fn message_stands_in_for_lines(
    error: Seq<char>,
    note: Option<Seq<char>>,
    n: Seq<char>,
    lines: nat,
)
    ensures
        viewer::message_of(Some(error), note, lines) == Some(error),
        lines > 0 ==> viewer::message_of(None, note, lines) is None,
        viewer::message_of(None, Some(n), 0) == Some(n),
        viewer::message_of(None, None, 0) == Some("up to date — nothing here"@),
{
}

/// A checkpoint is suggested by its message, or by its id where it has none, and by its
/// place from the end.
pub proof fn suggestions_are_message_id_and_place(h: Seq<CommitView>, i: int)
    requires
        0 <= i < h.len(),
    ensures
        h[i].message is Some ==> complete::own_reference(h[i]) == h[i].message->0,
        h[i].message is None ==> complete::own_reference(h[i]) == text::decimal(h[i].id as nat),
        complete::end_reference(h, i) == "^"@ + text::decimal((h.len() - i) as nat),
{
}

} // verus!
