//! Starting over, and folding new lines into the newest checkpoint.

use vstd::prelude::*;

use crate::commands::open;
use crate::commands::recall;
use crate::commands::squash;
use crate::fs;
use crate::fs::Fs;
use crate::laws::reading;
use crate::memfs::MemFs;
use crate::state::{EntryView, StateView};

verus! {

/// Clearing a session keeps watching the same files, forgets the history and what could
/// be undone, and leaves nothing pending.
pub proof fn clear_starts_over<F: Fs>(fs: &F, s: StateView)
    requires
        forall|i: int|
            0 <= i < s.files.len() ==> reading::undisturbed(fs, (#[trigger] s.files[i]).path),
    ensures
        ({
            let cleared = open::opened(fs, open::watched(s.files), false);
            &&& open::watched(cleared.files) == open::watched(s.files)
            &&& cleared.history.len() == 0
            &&& cleared.undo.len() == 0
            &&& forall|i: int|
                0 <= i < s.files.len() ==> reading::up_to_date(fs, #[trigger] cleared.files[i])
        }),
{
    let paths = open::watched(s.files);
    let cleared = open::opened(fs, paths, false);
    assert(open::watched(cleared.files) =~= paths);
    assert forall|i: int| 0 <= i < s.files.len() implies reading::up_to_date(
        fs,
        #[trigger] cleared.files[i],
    ) by {
        assert(paths[i] == s.files[i].path);
        reading::open_hides_existing_lines(fs, paths, i);
    }
}

/// A squash opens no checkpoint: the newest one keeps its id, time and message, the older
/// ones stay as they are, and so does what can be undone.
pub proof fn squash_keeps_the_checkpoint<F: Fs>(fs: &F, s: StateView, sel: Seq<int>)
    requires
        s.history.len() > 0,
    ensures
        ({
            let after = squash::squashed(fs, s, sel);
            &&& after.history.len() == s.history.len()
            &&& after.history.drop_last() == s.history.drop_last()
            &&& after.history.last().id == s.history.last().id
            &&& after.history.last().message == s.history.last().message
            &&& after.history.last().created_at == s.history.last().created_at
            &&& after.history.last().depth == s.history.last().depth
            &&& after.undo == s.undo
            &&& after.next_id == s.next_id
        }),
{
    let after = squash::squashed(fs, s, sel);
    assert(after.history.drop_last() =~= s.history.drop_last());
}

/// A range that continues the recorded one extends it: recalling the checkpoint then
/// gives the bytes of both, one after the other, and counts the lines of both.
pub proof fn squash_extends_the_range<F: Fs>(fs: &F, e: EntryView, new: EntryView)
    requires
        e.path == new.path,
        e.dev == new.dev,
        e.ino == new.ino,
        e.to == new.from,
        e.from <= e.to,
        recall::available(fs, new),
        new.from <= new.to,
        e.lines + new.lines <= usize::MAX,
    ensures
        ({
            let both = squash::extended(e, new);
            &&& recall::available(fs, both)
            &&& recall::recorded(fs, both) == recall::recorded(fs, e) + recall::recorded(fs, new)
            &&& both.lines == e.lines + new.lines
            &&& both.prev_cursor == e.prev_cursor
        }),
{
    let both = squash::extended(e, new);
    assert(recall::recorded(fs, both) =~= recall::recorded(fs, e) + recall::recorded(fs, new));
}

/// The in-memory filesystem is never disturbed.
pub proof fn memory_is_undisturbed(fs: &MemFs, p: Seq<char>)
    requires
        reading::fits_in_memory(fs, p),
    ensures
        reading::undisturbed(fs, p),
{
    assert(fs::contents(fs, p).len() <= usize::MAX);
}

} // verus!
