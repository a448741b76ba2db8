//! Stepping back: what `undo` restores.

use vstd::prelude::*;

use crate::commands::commit;
use crate::commands::moving;
use crate::commands::squash;
use crate::commands::undo;
use crate::fs::Fs;
use crate::pending;
use crate::state::{EntryView, FileView, StateView};

verus! {

/// The files whose record a run changed, one for each of its entries.
pub open spec fn changed<F: Fs>(fs: &F, files: Seq<FileView>, sel: Seq<int>) -> Seq<int>
    decreases sel.len(),
{
    if sel.len() == 0 {
        Seq::empty()
    } else {
        let before = changed(fs, files, sel.drop_last());
        let f = moving::read_files(fs, files, sel.drop_last(), ""@).files[sel.last()];
        let p = pending::pending_of(fs, f);
        if !p.event.is_absent() && moving::moves(f, p) {
            before.push(sel.last())
        } else {
            before
        }
    }
}

/// A run changed the record of no file twice, and each file that it changed is the first
/// one watched at its path.
pub open spec fn revertible<F: Fs>(fs: &F, files: Seq<FileView>, sel: Seq<int>) -> bool {
    let t = changed(fs, files, sel);
    &&& forall|a: int, b: int| 0 <= a < b < t.len() ==> #[trigger] t[a] != #[trigger] t[b]
    &&& forall|a: int|
        0 <= a < t.len() ==> undo::file_at(files, files[#[trigger] t[a]].path, 0) == Some(t[a])
}

pub open spec fn in_range(files: Seq<FileView>, sel: Seq<int>) -> bool {
    forall|k: int| 0 <= k < sel.len() ==> 0 <= #[trigger] sel[k] < files.len()
}

/// What the verb of a run is has no bearing on files and entries.
pub proof fn lemma_verb<F: Fs>(fs: &F, files: Seq<FileView>, sel: Seq<int>, v: Seq<char>, w: Seq<char>)
    ensures
        moving::read_files(fs, files, sel, v).files == moving::read_files(fs, files, sel, w).files,
        moving::read_files(fs, files, sel, v).entries == moving::read_files(
            fs,
            files,
            sel,
            w,
        ).entries,
    decreases sel.len(),
{
    if sel.len() > 0 {
        lemma_verb(fs, files, sel.drop_last(), v, w);
    }
}

/// A file whose record does not change is left as it is.
pub proof fn lemma_unmoved<F: Fs>(fs: &F, f: FileView)
    requires
        !pending::pending_of(fs, f).event.is_absent(),
        !moving::moves(f, pending::pending_of(fs, f)),
    ensures
        moving::settled(f, pending::pending_of(fs, f)) == f,
{
    assert(moving::settled(f, pending::pending_of(fs, f)) =~= f);
}

/// A run, file by file.
pub proof fn lemma_run<F: Fs>(fs: &F, files: Seq<FileView>, sel: Seq<int>)
    requires
        in_range(files, sel),
    ensures
        ({
            let run = moving::read_files(fs, files, sel, ""@);
            let t = changed(fs, files, sel);
            &&& run.files.len() == files.len()
            &&& t.len() == run.entries.len()
            &&& forall|a: int|
                0 <= a < t.len() ==> 0 <= #[trigger] t[a] < files.len() && run.entries[a].path
                    == files[t[a]].path
            &&& forall|i: int|
                0 <= i < files.len() && !t.contains(i) ==> #[trigger] run.files[i] == files[i]
            &&& forall|i: int|
                0 <= i < files.len() ==> (#[trigger] run.files[i]).path == files[i].path
            &&& (forall|a: int, b: int| 0 <= a < b < t.len() ==> #[trigger] t[a] != #[trigger] t[b])
                ==> forall|a: int|
                0 <= a < t.len() ==> (#[trigger] run.entries[a]).prev_cursor == files[t[a]].cursor
                    && run.entries[a].prev_dev == files[t[a]].dev && run.entries[a].prev_ino
                    == files[t[a]].ino
        }),
    decreases sel.len(),
{
    if sel.len() > 0 {
        let init = sel.drop_last();
        assert(in_range(files, init)) by {
            assert forall|k: int| 0 <= k < init.len() implies 0 <= #[trigger] init[k]
                < files.len() by {
                assert(init[k] == sel[k]);
            }
        }
        lemma_run(fs, files, init);
        let run0 = moving::read_files(fs, files, init, ""@);
        let run = moving::read_files(fs, files, sel, ""@);
        let t0 = changed(fs, files, init);
        let t = changed(fs, files, sel);
        let i = sel.last();
        assert(i == sel[sel.len() - 1]);
        let f = run0.files[i];
        let p = pending::pending_of(fs, f);
        if !p.event.is_absent() && moving::moves(f, p) {
            assert(t == t0.push(i));
            assert forall|j: int| 0 <= j < files.len() && !t.contains(j) implies #[trigger] run.files[j]
                == files[j] by {
                assert(t[t0.len() as int] == i);
                assert(!t0.contains(j)) by {
                    if t0.contains(j) {
                        let a = choose|a: int| 0 <= a < t0.len() && t0[a] == j;
                        assert(t[a] == j);
                    }
                }
                assert(run0.files[j] == files[j]);
            }
            assert forall|a: int| 0 <= a < t.len() implies 0 <= #[trigger] t[a] < files.len()
                && run.entries[a].path == files[t[a]].path by {
                if a < t0.len() {
                    assert(t[a] == t0[a]);
                }
            }
            if forall|a: int, b: int| 0 <= a < b < t.len() ==> #[trigger] t[a] != #[trigger] t[b] {
                assert forall|a: int, b: int| 0 <= a < b < t0.len() implies #[trigger] t0[a]
                    != #[trigger] t0[b] by {
                    assert(t[a] == t0[a] && t[b] == t0[b]);
                }
                assert(!t0.contains(i)) by {
                    if t0.contains(i) {
                        let a = choose|a: int| 0 <= a < t0.len() && t0[a] == i;
                        assert(t[a] == i && t[t0.len() as int] == i);
                    }
                }
                assert(run0.files[i] == files[i]);
                assert forall|a: int| 0 <= a < t.len() implies (
                #[trigger] run.entries[a]).prev_cursor == files[t[a]].cursor
                    && run.entries[a].prev_dev == files[t[a]].dev && run.entries[a].prev_ino
                    == files[t[a]].ino by {
                    if a < t0.len() {
                        assert(t[a] == t0[a]);
                        assert(run.entries[a] == run0.entries[a]);
                    }
                }
            }
        } else {
            assert(t == t0);
            if !p.event.is_absent() {
                lemma_unmoved(fs, f);
            }
            assert(run.files =~= run0.files);
        }
    }
}

pub proof fn lemma_file_at(files: Seq<FileView>, p: Seq<char>, k: int)
    requires
        0 <= k,
    ensures
        match undo::file_at(files, p, k) {
            Some(i) => k <= i < files.len() && files[i].path == p && forall|j: int|
                k <= j < i ==> (#[trigger] files[j]).path != p,
            None => forall|j: int| k <= j < files.len() ==> (#[trigger] files[j]).path != p,
        },
    decreases files.len() - k,
{
    if k < files.len() {
        lemma_file_at(files, p, k + 1);
    }
}

/// Where a file is found depends on paths only.
proof fn lemma_file_at_paths(a: Seq<FileView>, b: Seq<FileView>, p: Seq<char>, k: int)
    requires
        a.len() == b.len(),
        forall|i: int| 0 <= i < a.len() ==> (#[trigger] a[i]).path == b[i].path,
    ensures
        undo::file_at(a, p, k) == undo::file_at(b, p, k),
    decreases a.len() - k,
{
    if 0 <= k < a.len() {
        assert(a[k].path == b[k].path);
        lemma_file_at_paths(a, b, p, k + 1);
    }
}

pub proof fn lemma_entry_at(entries: Seq<EntryView>, p: Seq<char>, k: int)
    requires
        0 <= k,
    ensures
        match squash::entry_at(entries, p, k) {
            Some(i) => k <= i < entries.len() && entries[i].path == p && forall|j: int|
                k <= j < i ==> (#[trigger] entries[j]).path != p,
            None => forall|j: int| k <= j < entries.len() ==> (#[trigger] entries[j]).path != p,
        },
    decreases entries.len() - k,
{
    if k < entries.len() {
        lemma_entry_at(entries, p, k + 1);
    }
}

pub open spec fn distinct_paths(entries: Seq<EntryView>) -> bool {
    forall|a: int, b: int|
        0 <= a < b < entries.len() ==> (#[trigger] entries[a]).path != (
        #[trigger] entries[b]).path
}

/// A file with the read position that an entry replaced.
pub open spec fn reverted(f: FileView, e: EntryView) -> FileView {
    FileView { path: f.path, dev: e.prev_dev, ino: e.prev_ino, cursor: e.prev_cursor }
}

/// Putting entries back, file by file: the first file at the path of an entry is put back,
/// every other file stays.
pub proof fn lemma_restored(files: Seq<FileView>, entries: Seq<EntryView>, i: int)
    requires
        distinct_paths(entries),
        0 <= i < files.len(),
    ensures
        undo::restored(files, entries).len() == files.len(),
        undo::restored(files, entries)[i].path == files[i].path,
        undo::restored(files, entries)[i] == match squash::entry_at(entries, files[i].path, 0) {
            Some(k) => if undo::file_at(files, files[i].path, 0) == Some(i) {
                reverted(files[i], entries[k])
            } else {
                files[i]
            },
            None => files[i],
        },
    decreases entries.len(),
{
    if entries.len() > 0 {
        let init = entries.drop_last();
        let e = entries.last();
        assert(e == entries[entries.len() - 1]);
        assert(distinct_paths(init)) by {
            assert forall|a: int, b: int| 0 <= a < b < init.len() implies (
            #[trigger] init[a]).path != (#[trigger] init[b]).path by {
                assert(init[a] == entries[a] && init[b] == entries[b]);
            }
        }
        let before = undo::restored(files, init);
        assert forall|j: int| 0 <= j < files.len() implies (#[trigger] before[j]).path
            == files[j].path by {
            lemma_restored(files, init, j);
        }
        lemma_restored(files, init, i);
        lemma_file_at_paths(before, files, e.path, 0);
        lemma_file_at(files, e.path, 0);
        lemma_file_at(files, files[i].path, 0);
        lemma_entry_at(entries, files[i].path, 0);
        lemma_entry_at(init, files[i].path, 0);
        match squash::entry_at(init, files[i].path, 0) {
            Some(k) => {
                assert(init[k] == entries[k]);
                assert(entries[k].path != e.path);
                match squash::entry_at(entries, files[i].path, 0) {
                    Some(m) => {
                        if m < k {
                            assert(init[m] == entries[m]);
                        }
                        if m > k {
                            assert(entries[k].path != files[i].path);
                        }
                    },
                    None => {
                        assert(entries[k].path != files[i].path);
                    },
                }
            },
            None => {
                match squash::entry_at(entries, files[i].path, 0) {
                    Some(m) => {
                        if m < init.len() {
                            assert(init[m] == entries[m]);
                        }
                    },
                    None => {},
                }
            },
        }
    } else {
        lemma_entry_at(entries, files[i].path, 0);
    }
}

/// The entries of a revertible run name different paths.
pub proof fn lemma_run_paths_distinct<F: Fs>(fs: &F, files: Seq<FileView>, sel: Seq<int>)
    requires
        in_range(files, sel),
        revertible(fs, files, sel),
    ensures
        distinct_paths(moving::read_files(fs, files, sel, ""@).entries),
{
    lemma_run(fs, files, sel);
    let t = changed(fs, files, sel);
    let entries = moving::read_files(fs, files, sel, ""@).entries;
    assert forall|a: int, b: int| 0 <= a < b < entries.len() implies (#[trigger] entries[a]).path
        != (#[trigger] entries[b]).path by {
        assert(t[a] != t[b]);
        assert(undo::file_at(files, files[t[a]].path, 0) == Some(t[a]));
        assert(undo::file_at(files, files[t[b]].path, 0) == Some(t[b]));
    }
}

/// Putting back the entries of a run restores every file.
pub proof fn run_is_reverted<F: Fs>(fs: &F, files: Seq<FileView>, sel: Seq<int>)
    requires
        in_range(files, sel),
        revertible(fs, files, sel),
    ensures
        undo::restored(
            moving::read_files(fs, files, sel, ""@).files,
            moving::read_files(fs, files, sel, ""@).entries,
        ) == files,
{
    let run = moving::read_files(fs, files, sel, ""@);
    let t = changed(fs, files, sel);
    lemma_run(fs, files, sel);
    lemma_run_paths_distinct(fs, files, sel);
    assert forall|i: int| 0 <= i < files.len() implies undo::restored(run.files, run.entries)[i]
        == files[i] by {
        lemma_restored(run.files, run.entries, i);
        lemma_file_at_paths(run.files, files, files[i].path, 0);
        lemma_entry_at(run.entries, files[i].path, 0);
        if t.contains(i) {
            let a = choose|a: int| 0 <= a < t.len() && t[a] == i;
            assert(run.entries[a].path == files[t[a]].path);
            let k = squash::entry_at(run.entries, files[i].path, 0)->0;
            if k != a {
                assert(run.entries[k].path != run.entries[a].path);
            }
            assert(run.entries[a].prev_cursor == files[i].cursor);
            assert(reverted(run.files[i], run.entries[a]) =~= files[i]);
        } else {
            assert(run.files[i] == files[i]);
            match squash::entry_at(run.entries, files[i].path, 0) {
                Some(k) => {
                    assert(run.entries[k].path == files[t[k]].path);
                    assert(undo::file_at(files, files[t[k]].path, 0) == Some(t[k]));
                    assert(t.contains(t[k]));
                },
                None => {},
            }
        }
    }
    if files.len() > 0 {
        lemma_restored(run.files, run.entries, 0);
    } else {
        lemma_restored_empty(run.files, run.entries);
    }
    assert(undo::restored(run.files, run.entries) =~= files);
}

proof fn lemma_restored_empty(files: Seq<FileView>, entries: Seq<EntryView>)
    requires
        files.len() == 0,
    ensures
        undo::restored(files, entries).len() == 0,
    decreases entries.len(),
{
    if entries.len() > 0 {
        lemma_restored_empty(files, entries.drop_last());
        let before = undo::restored(files, entries.drop_last());
        lemma_file_at(before, entries.last().path, 0);
    }
}

/// A run over different files of a session that watches no path twice is revertible.
pub proof fn different_files_are_revertible<F: Fs>(fs: &F, files: Seq<FileView>, sel: Seq<int>)
    requires
        in_range(files, sel),
        forall|a: int, b: int| 0 <= a < b < sel.len() ==> #[trigger] sel[a] != #[trigger] sel[b],
        forall|a: int, b: int|
            0 <= a < b < files.len() ==> (#[trigger] files[a]).path != (#[trigger] files[b]).path,
    ensures
        revertible(fs, files, sel),
{
    lemma_run(fs, files, sel);
    lemma_changed_subsequence(fs, files, sel);
    let t = changed(fs, files, sel);
    assert forall|a: int| 0 <= a < t.len() implies undo::file_at(
        files,
        files[#[trigger] t[a]].path,
        0,
    ) == Some(t[a]) by {
        lemma_file_at(files, files[t[a]].path, 0);
        match undo::file_at(files, files[t[a]].path, 0) {
            Some(i) => {
                if i < t[a] {
                    assert(files[i].path != files[t[a]].path);
                }
            },
            None => {
                assert(files[t[a]].path != files[t[a]].path);
            },
        }
    }
}

pub proof fn lemma_changed_subsequence<F: Fs>(fs: &F, files: Seq<FileView>, sel: Seq<int>)
    requires
        forall|a: int, b: int| 0 <= a < b < sel.len() ==> #[trigger] sel[a] != #[trigger] sel[b],
    ensures
        forall|a: int| 0 <= a < changed(fs, files, sel).len() ==> sel.contains(
            #[trigger] changed(fs, files, sel)[a],
        ),
        forall|a: int, b: int|
            0 <= a < b < changed(fs, files, sel).len() ==> #[trigger] changed(fs, files, sel)[a]
                != #[trigger] changed(fs, files, sel)[b],
    decreases sel.len(),
{
    if sel.len() > 0 {
        let init = sel.drop_last();
        assert forall|a: int, b: int| 0 <= a < b < init.len() implies #[trigger] init[a]
            != #[trigger] init[b] by {
            assert(init[a] == sel[a] && init[b] == sel[b]);
        }
        lemma_changed_subsequence(fs, files, init);
        let t0 = changed(fs, files, init);
        let t = changed(fs, files, sel);
        assert forall|a: int| 0 <= a < t0.len() implies sel.contains(#[trigger] t0[a]) && t0[a]
            != sel.last() by {
            let k = choose|k: int| 0 <= k < init.len() && init[k] == t0[a];
            assert(sel[k] == t0[a]);
            assert(sel[k] != sel[sel.len() - 1]);
        }
        assert(sel[sel.len() - 1] == sel.last());
        assert forall|a: int| 0 <= a < t.len() implies sel.contains(#[trigger] t[a]) by {
            if a < t0.len() {
                assert(t[a] == t0[a]);
            }
        }
        assert forall|a: int, b: int| 0 <= a < b < t.len() implies #[trigger] t[a]
            != #[trigger] t[b] by {
            assert(t[a] == t0[a]);
            if b < t0.len() {
                assert(t[b] == t0[b]);
            }
        }
    }
}

/// `undo` after a commit that recorded a checkpoint restores the session: every cursor and
/// identity, the undo stack, the next id, and the history but for what the limit on it
/// dropped.
pub proof fn undo_reverts_commit<F: Fs>(
    fs: &F,
    s: StateView,
    sel: Seq<int>,
    message: Option<Seq<char>>,
    created_at: Option<Seq<char>>,
)
    requires
        in_range(s.files, sel),
        revertible(fs, s.files, sel),
        changed(fs, s.files, sel).len() > 0,
        s.undo.len() <= usize::MAX,
    ensures
        ({
            let back = undo::undone(commit::committed(fs, s, sel, message, created_at));
            &&& back.files == s.files
            &&& back.undo == s.undo
            &&& back.next_id == commit::fresh_id(s)
            &&& s.history.len() < commit::MAX_HISTORY ==> back.history == s.history
            &&& s.history.len() >= commit::MAX_HISTORY ==> back.history == s.history.skip(
                s.history.len() - commit::MAX_HISTORY + 1,
            )
        }),
{
    lemma_run(fs, s.files, sel);
    run_is_reverted(fs, s.files, sel);
    let after = commit::committed(fs, s, sel, message, created_at);
    let c = commit::checkpoint(fs, s, sel, message, created_at);
    let grown = s.history.push(c);
    assert(after.history == commit::newest(grown));
    assert(after.history.last() == c);
    assert(undo::newest_is_checkpoint(after));
    let back = undo::undone(after);
    if s.history.len() < commit::MAX_HISTORY {
        assert(back.history =~= s.history);
    } else {
        assert(back.history =~= s.history.skip(s.history.len() - commit::MAX_HISTORY + 1));
    }
}

/// A commit that recorded no checkpoint left the session as it was.
pub proof fn empty_commit_changes_nothing<F: Fs>(
    fs: &F,
    s: StateView,
    sel: Seq<int>,
    message: Option<Seq<char>>,
    created_at: Option<Seq<char>>,
)
    requires
        in_range(s.files, sel),
        changed(fs, s.files, sel).len() == 0,
    ensures
        commit::committed(fs, s, sel, message, created_at) == s,
        commit::advanced(fs, s, sel) == s,
{
    lemma_run(fs, s.files, sel);
    lemma_verb(fs, s.files, sel, ""@, "advancing past "@);
    let run = moving::read_files(fs, s.files, sel, ""@);
    assert(run.files =~= s.files);
    assert(commit::committed(fs, s, sel, message, created_at) =~= s);
    assert(commit::advanced(fs, s, sel) =~= s);
}

/// `undo` after an advance that moved anything restores the session.
pub proof fn undo_reverts_advance<F: Fs>(fs: &F, s: StateView, sel: Seq<int>)
    requires
        in_range(s.files, sel),
        changed(fs, s.files, sel).len() > 0,
        s.history.len() > 0 ==> s.history.last().depth <= s.undo.len(),
    ensures
        undo::undone(commit::advanced(fs, s, sel)) == s,
{
    lemma_run(fs, s.files, sel);
    lemma_verb(fs, s.files, sel, ""@, "advancing past "@);
    let after = commit::advanced(fs, s, sel);
    let back = undo::undone(after);
    assert(after.undo.last() == commit::snaps_of(s.files));
    assert(back.files =~= s.files);
    assert(back.undo =~= s.undo);
    assert(back =~= s);
}

/// Folding keeps the paths of entries distinct, and what each entry replaced: that of the
/// first range recorded for its path.
pub proof fn lemma_folded(entries: Seq<EntryView>, new: Seq<EntryView>, p: Seq<char>)
    requires
        distinct_paths(entries),
        distinct_paths(new),
    ensures
        distinct_paths(squash::folded(entries, new)),
        ({
            let all = squash::folded(entries, new);
            match squash::entry_at(entries, p, 0) {
                Some(k) => squash::entry_at(all, p, 0) is Some && ({
                    let e = all[squash::entry_at(all, p, 0)->0];
                    e.prev_cursor == entries[k].prev_cursor && e.prev_dev == entries[k].prev_dev
                        && e.prev_ino == entries[k].prev_ino
                }),
                None => match squash::entry_at(new, p, 0) {
                    Some(k) => squash::entry_at(all, p, 0) is Some && ({
                        let e = all[squash::entry_at(all, p, 0)->0];
                        e.prev_cursor == new[k].prev_cursor && e.prev_dev == new[k].prev_dev
                            && e.prev_ino == new[k].prev_ino
                    }),
                    None => squash::entry_at(all, p, 0) is None,
                },
            }
        }),
    decreases new.len(),
{
    lemma_entry_at(entries, p, 0);
    lemma_entry_at(new, p, 0);
    if new.len() > 0 {
        let init = new.drop_last();
        let n = new.last();
        assert(n == new[new.len() - 1]);
        assert(distinct_paths(init)) by {
            assert forall|a: int, b: int| 0 <= a < b < init.len() implies (
            #[trigger] init[a]).path != (#[trigger] init[b]).path by {
                assert(init[a] == new[a] && init[b] == new[b]);
            }
        }
        lemma_folded(entries, init, p);
        lemma_folded(entries, init, n.path);
        let before = squash::folded(entries, init);
        let all = squash::folded(entries, new);
        assert(all == squash::folded_one(before, n));
        lemma_entry_at(before, n.path, 0);
        lemma_entry_at(before, p, 0);
        lemma_entry_at(all, p, 0);
        lemma_entry_at(init, p, 0);
        lemma_entry_at(init, n.path, 0);
        match squash::entry_at(before, n.path, 0) {
            Some(m) => {
                assert forall|a: int, b: int| 0 <= a < b < all.len() implies (
                #[trigger] all[a]).path != (#[trigger] all[b]).path by {
                    assert(all[a].path == before[a].path && all[b].path == before[b].path);
                }
            },
            None => {
                assert forall|a: int, b: int| 0 <= a < b < all.len() implies (
                #[trigger] all[a]).path != (#[trigger] all[b]).path by {
                    assert(all[a] == before[a]);
                    if b < before.len() {
                        assert(all[b] == before[b]);
                    }
                }
            },
        }
        lemma_entry_kept(before, n, p);
        match squash::entry_at(init, p, 0) {
            Some(k) => {
                assert(init[k] == new[k]);
                lemma_entry_unique(new, k);
            },
            None => {
                match squash::entry_at(new, p, 0) {
                    Some(k) => {
                        if k < init.len() {
                            assert(init[k] == new[k]);
                        }
                    },
                    None => {},
                }
            },
        }
    }
}

/// An entry among distinct ones is the first of its path.
pub proof fn lemma_entry_unique(entries: Seq<EntryView>, k: int)
    requires
        distinct_paths(entries),
        0 <= k < entries.len(),
    ensures
        squash::entry_at(entries, entries[k].path, 0) == Some(k),
{
    lemma_entry_at(entries, entries[k].path, 0);
    match squash::entry_at(entries, entries[k].path, 0) {
        Some(m) => {
            if m < k {
                assert(entries[m].path != entries[k].path);
            }
        },
        None => {
            assert(entries[k].path != entries[k].path);
        },
    }
}

/// Taking in one range: the entry of its path keeps what it replaced, every other entry
/// stays.
proof fn lemma_entry_kept(before: Seq<EntryView>, n: EntryView, p: Seq<char>)
    requires
        distinct_paths(before),
        distinct_paths(squash::folded_one(before, n)),
    ensures
        ({
            let all = squash::folded_one(before, n);
            match squash::entry_at(before, p, 0) {
                Some(k) => squash::entry_at(all, p, 0) == Some(k) && all[k].prev_cursor
                    == before[k].prev_cursor && all[k].prev_dev == before[k].prev_dev
                    && all[k].prev_ino == before[k].prev_ino,
                None => if p == n.path {
                    squash::entry_at(all, p, 0) == Some(before.len() as int)
                        && all[before.len() as int] == n
                } else {
                    squash::entry_at(all, p, 0) is None
                },
            }
        }),
{
    let all = squash::folded_one(before, n);
    lemma_entry_at(before, p, 0);
    lemma_entry_at(before, n.path, 0);
    lemma_entry_at(all, p, 0);
    match squash::entry_at(before, p, 0) {
        Some(k) => {
            assert(all[k].path == p);
            lemma_entry_unique(all, k);
        },
        None => {
            if p == n.path {
                let k = before.len() as int;
                assert(all[k] == n);
                lemma_entry_unique(all, k);
            } else {
                match squash::entry_at(all, p, 0) {
                    Some(k) => {
                        if k < before.len() {
                            assert(all[k].path == before[k].path);
                        }
                    },
                    None => {},
                }
            }
        },
    }
}

/// `undo` after a squash reverts the whole checkpoint: the lines that it first committed
/// and those that were folded in.
pub proof fn undo_reverts_squashed_commit<F: Fs>(
    fs: &F,
    later: &F,
    s: StateView,
    sel: Seq<int>,
    sel2: Seq<int>,
    message: Option<Seq<char>>,
    created_at: Option<Seq<char>>,
)
    requires
        in_range(s.files, sel),
        in_range(s.files, sel2),
        revertible(fs, s.files, sel),
        changed(fs, s.files, sel).len() > 0,
        revertible(later, commit::committed(fs, s, sel, message, created_at).files, sel2),
        s.undo.len() <= usize::MAX,
    ensures
        ({
            let first = commit::committed(fs, s, sel, message, created_at);
            let back = undo::undone(squash::squashed(later, first, sel2));
            &&& back.files == s.files
            &&& back.undo == s.undo
            &&& back.next_id == commit::fresh_id(s)
            &&& back.history == undo::undone(first).history
        }),
{
    lemma_run(fs, s.files, sel);
    let first = commit::committed(fs, s, sel, message, created_at);
    let c = commit::checkpoint(fs, s, sel, message, created_at);
    assert(first.history == commit::newest(s.history.push(c)));
    assert(first.history.last() == c);
    let run1 = moving::read_files(fs, s.files, sel, ""@);
    let run2 = moving::read_files(later, first.files, sel2, ""@);
    let t1 = changed(fs, s.files, sel);
    let t2 = changed(later, first.files, sel2);
    assert(in_range(first.files, sel2));
    lemma_run(later, first.files, sel2);
    lemma_run_paths_distinct(fs, s.files, sel);
    lemma_run_paths_distinct(later, first.files, sel2);
    let all = squash::folded(run1.entries, run2.entries);
    lemma_folded(run1.entries, run2.entries, ""@);
    let restored = undo::restored(run2.files, all);
    assert forall|i: int| 0 <= i < s.files.len() implies restored[i] == s.files[i] by {
        let p = s.files[i].path;
        lemma_restored(run2.files, all, i);
        lemma_file_at_paths(run2.files, s.files, p, 0);
        lemma_file_at_paths(first.files, s.files, p, 0);
        lemma_folded(run1.entries, run2.entries, p);
        lemma_entry_at(run1.entries, p, 0);
        lemma_entry_at(run2.entries, p, 0);
        let is_first = undo::file_at(s.files, p, 0) == Some(i);
        if is_first {
            match squash::entry_at(run1.entries, p, 0) {
                Some(k) => {
                    assert(run1.entries[k].path == s.files[t1[k]].path);
                    assert(undo::file_at(s.files, s.files[t1[k]].path, 0) == Some(t1[k]));
                    assert(run1.entries[k].prev_cursor == s.files[t1[k]].cursor);
                    assert(restored[i] =~= s.files[i]);
                },
                None => {
                    if t1.contains(i) {
                        let a = choose|a: int| 0 <= a < t1.len() && t1[a] == i;
                        assert(run1.entries[a].path == s.files[t1[a]].path);
                        assert(false);
                    }
                    assert(run1.files[i] == s.files[i]);
                    match squash::entry_at(run2.entries, p, 0) {
                        Some(k) => {
                            assert(run2.entries[k].path == first.files[t2[k]].path);
                            assert(undo::file_at(first.files, first.files[t2[k]].path, 0) == Some(
                                t2[k],
                            ));
                            assert(run2.entries[k].prev_cursor == first.files[t2[k]].cursor);
                            assert(restored[i] =~= s.files[i]);
                        },
                        None => {
                            if t2.contains(i) {
                                let a = choose|a: int| 0 <= a < t2.len() && t2[a] == i;
                                assert(run2.entries[a].path == first.files[t2[a]].path);
                                assert(false);
                            }
                            assert(run2.files[i] == first.files[i]);
                        },
                    }
                },
            }
        } else {
            assert(!t1.contains(i)) by {
                if t1.contains(i) {
                    let a = choose|a: int| 0 <= a < t1.len() && t1[a] == i;
                    assert(undo::file_at(s.files, s.files[t1[a]].path, 0) == Some(t1[a]));
                }
            }
            assert(!t2.contains(i)) by {
                if t2.contains(i) {
                    let a = choose|a: int| 0 <= a < t2.len() && t2[a] == i;
                    assert(undo::file_at(first.files, first.files[t2[a]].path, 0) == Some(t2[a]));
                }
            }
            assert(run1.files[i] == s.files[i]);
            assert(run2.files[i] == first.files[i]);
        }
    }
    if s.files.len() > 0 {
        lemma_restored(run2.files, all, 0);
    } else {
        lemma_restored_empty(run2.files, all);
    }
    assert(restored =~= s.files);
    let second = squash::squashed(later, first, sel2);
    assert(second.history.last().entries == all);
    assert(undo::newest_is_checkpoint(second));
    let back = undo::undone(second);
    assert(back.history =~= first.history.drop_last());
    assert(undo::undone(first).history == first.history.drop_last());
}

} // verus!
