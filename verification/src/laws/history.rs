//! What every session keeps: numbered checkpoints, a bounded history, an undo stack that
//! fits the files.

use vstd::prelude::*;

use crate::commands::commit;
use crate::commands::moving;
use crate::commands::open;
use crate::commands::squash;
use crate::commands::undo;
use crate::cursor;
use crate::fs::Fs;
use crate::laws::reading;
use crate::laws::stepping;
use crate::pending;
use crate::state::{CommitView, EntryView, FileView, StateView};

verus! {

/// A checkpoint records at least one file, and no range of it runs backwards.
pub open spec fn sound_checkpoint(c: CommitView) -> bool {
    &&& c.id >= 1
    &&& c.entries.len() > 0
    &&& forall|k: int|
        0 <= k < c.entries.len() ==> (#[trigger] c.entries[k]).from <= c.entries[k].to
}

/// What every session keeps.
pub open spec fn well_formed(s: StateView) -> bool {
    // ids ascend, and the next one is above them
    &&& forall|a: int, b: int|
        0 <= a < b < s.history.len() ==> (#[trigger] s.history[a]).id < (
        #[trigger] s.history[b]).id
    &&& forall|k: int| 0 <= k < s.history.len() ==> (#[trigger] s.history[k]).id < s.next_id
    &&& forall|k: int| 0 <= k < s.history.len() ==> sound_checkpoint(#[trigger] s.history[k])
    // the history is bounded
    &&& s.history.len() <= commit::MAX_HISTORY
    // checkpoints and snapshots are in order
    &&& forall|a: int, b: int|
        0 <= a < b < s.history.len() ==> (#[trigger] s.history[a]).depth <= (
        #[trigger] s.history[b]).depth
    &&& forall|k: int| 0 <= k < s.history.len() ==> (#[trigger] s.history[k]).depth <= s.undo.len()
    &&& s.undo.len() <= usize::MAX
    // a snapshot holds a position for each file
    &&& forall|k: int| 0 <= k < s.undo.len() ==> (#[trigger] s.undo[k]).len() == s.files.len()
}

/// A freshly opened session is well formed.
pub proof fn open_is_well_formed<F: Fs>(fs: &F, paths: Seq<Seq<char>>, from_start: bool)
    ensures
        well_formed(open::opened(fs, paths, from_start)),
{
}

proof fn lemma_run_entries_forward<F: Fs>(fs: &F, files: Seq<FileView>, sel: Seq<int>)
    requires
        stepping::in_range(files, sel),
        forall|i: int|
            0 <= i < files.len() ==> reading::fits_in_memory(fs, (#[trigger] files[i]).path),
    ensures
        forall|k: int|
            0 <= k < moving::read_files(fs, files, sel, ""@).entries.len() ==> (
            #[trigger] moving::read_files(fs, files, sel, ""@).entries[k]).from
                <= moving::read_files(fs, files, sel, ""@).entries[k].to,
    decreases sel.len(),
{
    if sel.len() > 0 {
        let init = sel.drop_last();
        assert forall|k: int| 0 <= k < init.len() implies 0 <= #[trigger] init[k] < files.len() by {
            assert(init[k] == sel[k]);
        }
        lemma_run_entries_forward(fs, files, init);
        moving::lemma_read_files_paths(fs, files, init, ""@);
        let i = sel[sel.len() - 1];
        let r = moving::read_files(fs, files, init, ""@);
        let f = r.files[i];
        assert(f.path == files[i].path);
        let p = pending::pending_of(fs, f);
        if !p.event.is_absent() {
            if p.from <= p.bytes.len() {
                crate::laws::lines::region_splits_file(p.bytes, p.from);
            } else {
                assert(cursor::new_lines(p.bytes, p.from) =~= Seq::empty());
            }
        }
    }
}

/// A commit keeps a session well formed.
pub proof fn commit_keeps_well_formed<F: Fs>(
    fs: &F,
    s: StateView,
    sel: Seq<int>,
    message: Option<Seq<char>>,
    created_at: Option<Seq<char>>,
)
    requires
        well_formed(s),
        s.next_id < u32::MAX,
        stepping::in_range(s.files, sel),
        forall|i: int|
            0 <= i < s.files.len() ==> reading::fits_in_memory(fs, (#[trigger] s.files[i]).path),
    ensures
        well_formed(commit::committed(fs, s, sel, message, created_at)),
{
    moving::lemma_read_files_paths(fs, s.files, sel, ""@);
    lemma_run_entries_forward(fs, s.files, sel);
    let after = commit::committed(fs, s, sel, message, created_at);
    let run = moving::read_files(fs, s.files, sel, ""@);
    if run.entries.len() > 0 {
        let c = commit::checkpoint(fs, s, sel, message, created_at);
        let grown = s.history.push(c);
        let n = grown.len() - after.history.len();
        assert forall|k: int| 0 <= k < after.history.len() implies #[trigger] after.history[k]
            == grown[k + n] by {}
    }
}

/// An advance keeps a session well formed.
pub proof fn advance_keeps_well_formed<F: Fs>(fs: &F, s: StateView, sel: Seq<int>)
    requires
        well_formed(s),
        s.undo.len() < usize::MAX,
        stepping::in_range(s.files, sel),
    ensures
        well_formed(commit::advanced(fs, s, sel)),
{
    moving::lemma_read_files_paths(fs, s.files, sel, "advancing past "@);
}

proof fn lemma_folded_sound(entries: Seq<EntryView>, new: Seq<EntryView>)
    requires
        forall|k: int| 0 <= k < entries.len() ==> (#[trigger] entries[k]).from <= entries[k].to,
        forall|k: int| 0 <= k < new.len() ==> (#[trigger] new[k]).from <= new[k].to,
    ensures
        squash::folded(entries, new).len() >= entries.len(),
        forall|k: int|
            0 <= k < squash::folded(entries, new).len() ==> (#[trigger] squash::folded(
                entries,
                new,
            )[k]).from <= squash::folded(entries, new)[k].to,
    decreases new.len(),
{
    if new.len() > 0 {
        let init = new.drop_last();
        assert forall|k: int| 0 <= k < init.len() implies (#[trigger] init[k]).from
            <= init[k].to by {
            assert(init[k] == new[k]);
        }
        lemma_folded_sound(entries, init);
        assert(new.last() == new[new.len() - 1]);
        stepping::lemma_entry_at(squash::folded(entries, init), new.last().path, 0);
    }
}

/// A squash keeps a session well formed.
pub proof fn squash_keeps_well_formed<F: Fs>(fs: &F, s: StateView, sel: Seq<int>)
    requires
        well_formed(s),
        undo::newest_is_checkpoint(s),
        stepping::in_range(s.files, sel),
        forall|i: int|
            0 <= i < s.files.len() ==> reading::fits_in_memory(fs, (#[trigger] s.files[i]).path),
    ensures
        well_formed(squash::squashed(fs, s, sel)),
{
    moving::lemma_read_files_paths(fs, s.files, sel, ""@);
    lemma_run_entries_forward(fs, s.files, sel);
    let run = moving::read_files(fs, s.files, sel, ""@);
    let c = s.history.last();
    assert(c == s.history[s.history.len() - 1]);
    assert(sound_checkpoint(c));
    lemma_folded_sound(c.entries, run.entries);
    let after = squash::squashed(fs, s, sel);
    assert(sound_checkpoint(after.history.last()));
    assert forall|k: int| 0 <= k < after.history.len() implies sound_checkpoint(
        #[trigger] after.history[k],
    ) && after.history[k].id == s.history[k].id && after.history[k].depth == s.history[k].depth by {
        if k < s.history.len() - 1 {
            assert(after.history[k] == s.history[k]);
        }
    }
}

proof fn lemma_restored_len(files: Seq<FileView>, entries: Seq<EntryView>)
    ensures
        undo::restored(files, entries).len() == files.len(),
    decreases entries.len(),
{
    if entries.len() > 0 {
        lemma_restored_len(files, entries.drop_last());
        let before = undo::restored(files, entries.drop_last());
        stepping::lemma_file_at(before, entries.last().path, 0);
    }
}

/// A step back keeps a session well formed.
pub proof fn undo_keeps_well_formed(s: StateView)
    requires
        well_formed(s),
    ensures
        well_formed(undo::undone(s)),
{
    if undo::newest_is_checkpoint(s) {
        lemma_restored_len(s.files, s.history.last().entries);
        assert(s.history.last() == s.history[s.history.len() - 1]);
    } else if s.undo.len() > 0 && s.history.len() > 0 {
        let last = s.history[s.history.len() - 1];
        assert(last.depth < s.undo.len());
        assert forall|k: int| 0 <= k < s.history.len() implies (#[trigger] s.history[k]).depth
            <= s.undo.len() - 1 by {
            if k < s.history.len() - 1 {
                assert(s.history[k].depth <= last.depth);
            }
        }
    }
}

} // verus!
