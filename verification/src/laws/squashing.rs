//! Folding the pending lines into the newest checkpoint.

use vstd::prelude::*;

use crate::commands::commit;
use crate::commands::moving;
use crate::commands::recall;
use crate::commands::show;
use crate::commands::squash;
use crate::cursor;
use crate::fs;
use crate::fs::Fs;
use crate::laws::observing;
use crate::laws::reading;
use crate::laws::recalling;
use crate::laws::showing;
use crate::laws::stepping;
use crate::pending;
use crate::state::{EntryView, FileView, StateView};

verus! {

/// Targets that are files of the session, each once.
pub open spec fn targets(files: Seq<FileView>, sel: Seq<int>) -> bool {
    &&& forall|k: int| 0 <= k < sel.len() ==> 0 <= #[trigger] sel[k] < files.len()
    &&& forall|a: int, b: int| 0 <= a < b < sel.len() ==> #[trigger] sel[a] != #[trigger] sel[b]
}

/// No two files of the session are at one path.
pub open spec fn separate(files: Seq<FileView>) -> bool {
    forall|a: int, b: int|
        0 <= a < b < files.len() ==> (#[trigger] files[a]).path != (#[trigger] files[b]).path
}

/// A file stands where a checkpoint left it: its record is that of the entry.
pub open spec fn left_at(f: FileView, e: EntryView) -> bool {
    f.path == e.path && f.dev == e.dev && f.ino == e.ino && f.cursor == e.to
}

/// A file of which something was read still is the same file, and is no shorter.
pub open spec fn went_on<F: Fs>(fs: &F, f: FileView) -> bool {
    fs.stat_of(f.path) is Some && fs.stat_of(f.path)->0.dev == f.dev && fs.stat_of(f.path)->0.ino
        == f.ino && f.cursor <= fs.stat_of(f.path)->0.size
}

/// The entries of a run, each with the file that it is of: what was pending of it is what
/// the entry records, and the file is left at its end.
pub proof fn run_records_what_was_pending<F: Fs>(fs: &F, files: Seq<FileView>, sel: Seq<int>, a: int)
    requires
        targets(files, sel),
        0 <= a < stepping::changed(fs, files, sel).len(),
    ensures
        ({
            let run = moving::read_files(fs, files, sel, ""@);
            let i = stepping::changed(fs, files, sel)[a];
            &&& run.entries.len() == stepping::changed(fs, files, sel).len()
            &&& 0 <= i < files.len()
            &&& sel.contains(i)
            &&& run.files.len() == files.len()
            &&& run.entries[a] == moving::entry_of(files[i], pending::pending_of(fs, files[i]))
            &&& run.files[i] == moving::settled(files[i], pending::pending_of(fs, files[i]))
        }),
    decreases sel.len(),
{
    let t = stepping::changed(fs, files, sel);
    if sel.len() > 0 {
        let init = sel.drop_last();
        let last = sel[sel.len() - 1];
        let t0 = stepping::changed(fs, files, init);
        assert(last == sel.last());
        assert forall|k: int| 0 <= k < init.len() implies 0 <= #[trigger] init[k] < files.len()
            && init[k] == sel[k] by {}
        assert forall|x: int, y: int| 0 <= x < y < init.len() implies #[trigger] init[x]
            != #[trigger] init[y] by {
            assert(init[x] == sel[x] && init[y] == sel[y]);
        }
        stepping::lemma_run(fs, files, init);
        stepping::lemma_run(fs, files, sel);
        assert(!init.contains(last)) by {
            if init.contains(last) {
                let k = choose|k: int| 0 <= k < init.len() && init[k] == last;
                assert(sel[k] == last);
            }
        }
        reading::reading_keeps_other_files(fs, files, init, ""@, last);
        if a < t0.len() {
            run_records_what_was_pending(fs, files, init, a);
            let i = t0[a];
            let k = choose|k: int| 0 <= k < init.len() && init[k] == i;
            assert(sel[k] == i);
            assert(i != last);
        } else {
            assert(t[a] == last);
            assert(sel.contains(last));
        }
    }
}

/// Every target that is there and has a new line, or another identity than recorded, is
/// among the files whose record a run changed.
pub proof fn run_changes_what_moved<F: Fs>(fs: &F, files: Seq<FileView>, sel: Seq<int>, i: int)
    requires
        targets(files, sel),
        sel.contains(i),
        fs.stat_of(files[i].path) is Some,
        moving::moves(files[i], pending::pending_of(fs, files[i])),
    ensures
        stepping::changed(fs, files, sel).contains(i),
    decreases sel.len(),
{
    if sel.len() > 0 {
        let init = sel.drop_last();
        let last = sel[sel.len() - 1];
        let t0 = stepping::changed(fs, files, init);
        let t = stepping::changed(fs, files, sel);
        assert(last == sel.last());
        assert forall|k: int| 0 <= k < init.len() implies 0 <= #[trigger] init[k] < files.len()
            && init[k] == sel[k] by {}
        assert forall|x: int, y: int| 0 <= x < y < init.len() implies #[trigger] init[x]
            != #[trigger] init[y] by {
            assert(init[x] == sel[x] && init[y] == sel[y]);
        }
        if i == last {
            assert(!init.contains(last)) by {
                if init.contains(last) {
                    let k = choose|k: int| 0 <= k < init.len() && init[k] == last;
                    assert(sel[k] == last);
                }
            }
            reading::reading_keeps_other_files(fs, files, init, ""@, last);
            assert(t == t0.push(last));
            assert(t[t0.len() as int] == i);
        } else {
            let k = choose|k: int| 0 <= k < sel.len() && sel[k] == i;
            assert(init[k] == i);
            run_changes_what_moved(fs, files, init, i);
            let b = choose|b: int| 0 <= b < t0.len() && t0[b] == i;
            assert(t[b] == i);
        }
    }
}

proof fn lemma_run_distinct<F: Fs>(fs: &F, files: Seq<FileView>, sel: Seq<int>)
    requires
        targets(files, sel),
        separate(files),
    ensures
        stepping::distinct_paths(moving::read_files(fs, files, sel, ""@).entries),
{
    stepping::different_files_are_revertible(fs, files, sel);
    stepping::lemma_run_paths_distinct(fs, files, sel);
}

/// Taking in ranges: each recorded entry takes in the new range of its path, if there is
/// one, and otherwise stays.
proof fn lemma_folded_at(entries: Seq<EntryView>, new: Seq<EntryView>, k: int)
    requires
        stepping::distinct_paths(entries),
        stepping::distinct_paths(new),
        0 <= k < entries.len(),
    ensures
        squash::folded(entries, new).len() >= entries.len(),
        squash::folded(entries, new)[k] == match squash::entry_at(new, entries[k].path, 0) {
            Some(j) => squash::extended(entries[k], new[j]),
            None => entries[k],
        },
    decreases new.len(),
{
    let p = entries[k].path;
    stepping::lemma_entry_at(new, p, 0);
    if new.len() > 0 {
        let init = new.drop_last();
        let n = new[new.len() - 1];
        assert(n == new.last());
        assert forall|a: int, b: int| 0 <= a < b < init.len() implies (#[trigger] init[a]).path != (
        #[trigger] init[b]).path by {
            assert(init[a] == new[a] && init[b] == new[b]);
        }
        lemma_folded_at(entries, init, k);
        stepping::lemma_folded(entries, init, p);
        let before = squash::folded(entries, init);
        stepping::lemma_entry_at(init, p, 0);
        stepping::lemma_entry_at(before, n.path, 0);
        assert(before[k].path == p);
        if n.path == p {
            if let Some(j) = squash::entry_at(init, p, 0) {
                assert(init[j] == new[j]);
            }
            stepping::lemma_entry_unique(before, k);
            stepping::lemma_entry_unique(new, new.len() - 1);
        } else {
            match squash::entry_at(init, p, 0) {
                Some(j) => {
                    assert(init[j] == new[j]);
                    stepping::lemma_entry_unique(new, j);
                },
                None => {
                    if let Some(j) = squash::entry_at(new, p, 0) {
                        assert(j < init.len());
                        assert(init[j] == new[j]);
                    }
                },
            }
        }
    }
}

/// A new range of a path that has no entry becomes one.
proof fn lemma_folded_new(entries: Seq<EntryView>, new: Seq<EntryView>, j: int) -> (m: int)
    requires
        stepping::distinct_paths(entries),
        stepping::distinct_paths(new),
        0 <= j < new.len(),
        forall|k: int| 0 <= k < entries.len() ==> (#[trigger] entries[k]).path != new[j].path,
    ensures
        entries.len() <= m < squash::folded(entries, new).len(),
        squash::folded(entries, new)[m] == new[j],
    decreases new.len(),
{
    let init = new.drop_last();
    let n = new[new.len() - 1];
    assert(n == new.last());
    assert forall|a: int, b: int| 0 <= a < b < init.len() implies (#[trigger] init[a]).path != (
    #[trigger] init[b]).path by {
        assert(init[a] == new[a] && init[b] == new[b]);
    }
    let before = squash::folded(entries, init);
    stepping::lemma_folded(entries, init, n.path);
    stepping::lemma_entry_at(before, n.path, 0);
    stepping::lemma_entry_at(entries, n.path, 0);
    stepping::lemma_entry_at(init, n.path, 0);
    lemma_folded_len(entries, init);
    if j < init.len() {
        assert(init[j] == new[j]);
        let m = lemma_folded_new(entries, init, j);
        assert(new[j].path != n.path);
        m
    } else {
        if let Some(x) = squash::entry_at(init, n.path, 0) {
            assert(init[x] == new[x]);
        }
        before.len() as int
    }
}

proof fn lemma_folded_len(entries: Seq<EntryView>, new: Seq<EntryView>)
    ensures
        squash::folded(entries, new).len() >= entries.len(),
    decreases new.len(),
{
    if new.len() > 0 {
        lemma_folded_len(entries, new.drop_last());
        stepping::lemma_entry_at(squash::folded(entries, new.drop_last()), new.last().path, 0);
    }
}

/// A squash extends the range of every file of the checkpoint that it is over: recalling
/// the checkpoint then prints of the file what it printed before and, behind it, what was
/// pending, and counts the lines of both. Files that it is not over stay as recorded.
pub proof fn squash_extends_every_range<F: Fs>(
    fs: &F,
    s: StateView,
    sel: Seq<int>,
    k: int,
    i: int,
    prefix: bool,
)
    requires
        s.history.len() > 0,
        targets(s.files, sel),
        separate(s.files),
        stepping::distinct_paths(s.history.last().entries),
        0 <= k < s.history.last().entries.len(),
        0 <= i < s.files.len(),
        left_at(s.files[i], s.history.last().entries[k]),
        s.history.last().entries[k].from <= s.history.last().entries[k].to,
        recall::recorded(fs, s.history.last().entries[k]).len() > 0 ==> recall::recorded(
            fs,
            s.history.last().entries[k],
        ).last() == 10u8,
        reading::undisturbed(fs, s.files[i].path),
        went_on(fs, s.files[i]),
        s.history.last().entries[k].lines + observing::line_ends(
            fs::contents(fs, s.files[i].path).skip(s.files[i].cursor as int),
        ) <= usize::MAX,
    ensures
        ({
            let f = s.files[i];
            let e = s.history.last().entries[k];
            let after = squash::squashed(fs, s, sel);
            let e2 = after.history.last().entries[k];
            &&& after.history.last().entries.len() >= s.history.last().entries.len()
            &&& e2.path == e.path
            &&& e2.from == e.from
            &&& e2.to == after.files[i].cursor
            &&& recall::available(fs, e2)
            &&& !sel.contains(i) ==> e2 == e
            &&& sel.contains(i) ==> recall::recalled_out(fs, e2, prefix) == recall::recalled_out(
                fs,
                e,
                prefix,
            ) + show::shown_out(fs, f, prefix)
            &&& sel.contains(i) ==> e2.lines == e.lines + observing::line_ends(
                fs::contents(fs, f.path).skip(f.cursor as int),
            )
        }),
{
    let f = s.files[i];
    let e = s.history.last().entries[k];
    let run = moving::read_files(fs, s.files, sel, ""@);
    let t = stepping::changed(fs, s.files, sel);
    let all = squash::folded(s.history.last().entries, run.entries);
    let b = fs::contents(fs, f.path);
    assert(stepping::in_range(s.files, sel));
    stepping::lemma_run(fs, s.files, sel);
    lemma_run_distinct(fs, s.files, sel);
    lemma_folded_at(s.history.last().entries, run.entries, k);
    stepping::lemma_entry_at(run.entries, e.path, 0);
    observing::pending_reaches_the_last_line_end(fs, f);
    let p = pending::pending_of(fs, f);
    assert(p.from == f.cursor);
    let e2 = all[k];
    match squash::entry_at(run.entries, e.path, 0) {
        Some(j) => {
            run_records_what_was_pending(fs, s.files, sel, j);
            let x = t[j];
            if x < i {
                assert(s.files[x].path != s.files[i].path);
            }
            if i < x {
                assert(s.files[i].path != s.files[x].path);
            }
            assert(run.entries[j] == moving::entry_of(f, p));
            assert(e2 == squash::extended(e, run.entries[j]));
            let old_bytes = recall::recorded(fs, e);
            assert(recall::recorded(fs, e2) =~= old_bytes + p.region.bytes);
            showing::printing_goes_line_by_line(old_bytes, p.region.bytes, e.path, prefix);
        },
        None => {
            if t.contains(i) {
                let x = choose|x: int| 0 <= x < t.len() && t[x] == i;
                assert(run.entries[x].path == e.path);
            }
            assert(run.files[i] == f);
            if sel.contains(i) {
                if moving::moves(f, p) {
                    run_changes_what_moved(fs, s.files, sel, i);
                }
                assert(p.region.bytes =~= Seq::empty());
                showing::printing_goes_line_by_line(
                    recall::recorded(fs, e),
                    p.region.bytes,
                    e.path,
                    prefix,
                );
                assert(recall::recorded(fs, e) + p.region.bytes =~= recall::recorded(fs, e));
            }
        },
    }
}

/// A file of the checkpoint that was replaced or cut since is recorded anew by a squash
/// over it: recalling the checkpoint prints of it what was pending.
pub proof fn squash_records_a_replaced_file_anew<F: Fs>(
    fs: &F,
    s: StateView,
    sel: Seq<int>,
    k: int,
    i: int,
    prefix: bool,
)
    requires
        s.history.len() > 0,
        targets(s.files, sel),
        separate(s.files),
        stepping::distinct_paths(s.history.last().entries),
        0 <= k < s.history.last().entries.len(),
        sel.contains(i),
        left_at(s.files[i], s.history.last().entries[k]),
        reading::undisturbed(fs, s.files[i].path),
        fs.stat_of(s.files[i].path) is Some,
        s.files[i].ino != 0,
        !went_on(fs, s.files[i]),
    ensures
        ({
            let f = s.files[i];
            let e2 = squash::squashed(fs, s, sel).history.last().entries[k];
            &&& recall::recalled_out(fs, e2, prefix) == show::shown_out(fs, f, prefix)
            &&& e2.lines == observing::line_ends(fs::contents(fs, f.path))
            &&& e2.prev_cursor == s.history.last().entries[k].prev_cursor
        }),
{
    let f = s.files[i];
    let e = s.history.last().entries[k];
    let run = moving::read_files(fs, s.files, sel, ""@);
    let t = stepping::changed(fs, s.files, sel);
    assert(stepping::in_range(s.files, sel));
    stepping::lemma_run(fs, s.files, sel);
    lemma_run_distinct(fs, s.files, sel);
    lemma_folded_at(s.history.last().entries, run.entries, k);
    stepping::lemma_entry_at(run.entries, e.path, 0);
    observing::pending_reaches_the_last_line_end(fs, f);
    let p = pending::pending_of(fs, f);
    let b = fs::contents(fs, f.path);
    assert(p.from == 0);
    assert(b.skip(0) =~= b);
    run_changes_what_moved(fs, s.files, sel, i);
    let x = choose|x: int| 0 <= x < t.len() && t[x] == i;
    run_records_what_was_pending(fs, s.files, sel, x);
    stepping::lemma_entry_unique(run.entries, x);
    assert(squash::entry_at(run.entries, e.path, 0) == Some(x));
    let n = run.entries[x];
    let e2 = squash::extended(e, n);
    if e.dev == n.dev && e.ino == n.ino && e.to == n.from {
        assert(f.cursor == 0);
        assert(false);
    }
    assert(recall::recorded(fs, e2) =~= p.region.bytes);
}

/// A file that the checkpoint had not recorded joins it by a squash over it, with what was
/// pending of it.
pub proof fn squash_takes_in_other_files<F: Fs>(
    fs: &F,
    s: StateView,
    sel: Seq<int>,
    i: int,
    prefix: bool,
) -> (m: int)
    requires
        s.history.len() > 0,
        targets(s.files, sel),
        separate(s.files),
        stepping::distinct_paths(s.history.last().entries),
        forall|k: int|
            0 <= k < s.history.last().entries.len() ==> (
            #[trigger] s.history.last().entries[k]).path != s.files[i].path,
        sel.contains(i),
        reading::undisturbed(fs, s.files[i].path),
        fs.stat_of(s.files[i].path) is Some,
        show::shown_out(fs, s.files[i], false).len() > 0,
    ensures
        ({
            let f = s.files[i];
            let entries = squash::squashed(fs, s, sel).history.last().entries;
            &&& s.history.last().entries.len() <= m < entries.len()
            &&& entries[m].path == f.path
            &&& recall::recalled_out(fs, entries[m], prefix) == show::shown_out(fs, f, prefix)
            &&& entries[m].lines == observing::line_ends(
                fs::contents(fs, f.path).skip(cursor::read_from(f, fs.stat_of(f.path)) as int),
            )
            &&& entries[m].prev_cursor == f.cursor
        }),
{
    let f = s.files[i];
    let run = moving::read_files(fs, s.files, sel, ""@);
    let t = stepping::changed(fs, s.files, sel);
    assert(stepping::in_range(s.files, sel));
    stepping::lemma_run(fs, s.files, sel);
    lemma_run_distinct(fs, s.files, sel);
    observing::pending_reaches_the_last_line_end(fs, f);
    let p = pending::pending_of(fs, f);
    assert(p.region.lines > 0) by {
        observing::newlines_are_line_ends(p.region.bytes);
        assert(p.region.bytes.last() == 10u8);
    }
    run_changes_what_moved(fs, s.files, sel, i);
    let x = choose|x: int| 0 <= x < t.len() && t[x] == i;
    run_records_what_was_pending(fs, s.files, sel, x);
    let m = lemma_folded_new(s.history.last().entries, run.entries, x);
    assert(recall::recorded(fs, run.entries[x]) =~= p.region.bytes);
    m
}

/// A commit, and a squash after the files only grew: recalling the checkpoint prints of
/// each of its files what was pending at the commit and, behind it, what was pending at the
/// squash.
pub proof fn commit_and_squash_are_recalled_together<F: Fs>(
    fs: &F,
    later: &F,
    s: StateView,
    sel: Seq<int>,
    sel2: Seq<int>,
    message: Option<Seq<char>>,
    created_at: Option<Seq<char>>,
    k: int,
    prefix: bool,
)
    requires
        targets(s.files, sel),
        targets(s.files, sel2),
        separate(s.files),
        0 <= k < commit::checkpoint(fs, s, sel, message, created_at).entries.len(),
        forall|i: int|
            0 <= i < s.files.len() ==> {
                let p = (#[trigger] s.files[i]).path;
                &&& reading::undisturbed(fs, p)
                &&& reading::undisturbed(later, p)
                &&& fs.stat_of(p) is Some ==> recalling::only_grew(fs, later, p)
            },
        forall|i: int| 0 <= i < s.files.len() ==> sel2.contains(i),
    ensures
        ({
            let first = commit::committed(fs, s, sel, message, created_at);
            let second = squash::squashed(later, first, sel2);
            let e = first.history.last().entries[k];
            let e2 = second.history.last().entries[k];
            &&& e2.path == e.path
            &&& exists|i: int|
                0 <= i < s.files.len() && (#[trigger] s.files[i]).path == e.path
                    && recall::recalled_out(later, e2, prefix) == show::shown_out(
                    fs,
                    s.files[i],
                    prefix,
                ) + show::shown_out(later, first.files[i], prefix) && e2.lines
                    == observing::line_ends(recall::recorded(later, e2))
        }),
{
    let first = commit::committed(fs, s, sel, message, created_at);
    let c = commit::checkpoint(fs, s, sel, message, created_at);
    let run = moving::read_files(fs, s.files, sel, ""@);
    let t = stepping::changed(fs, s.files, sel);
    assert(stepping::in_range(s.files, sel));
    stepping::lemma_run(fs, s.files, sel);
    assert(first.history == commit::newest(s.history.push(c)));
    assert(first.history.last() == c);
    lemma_run_distinct(fs, s.files, sel);
    run_records_what_was_pending(fs, s.files, sel, k);
    let i = t[k];
    let f = s.files[i];
    let p = pending::pending_of(fs, f);
    let e = c.entries[k];
    assert(e == moving::entry_of(f, p));
    assert(first.files[i] == moving::settled(f, p));
    // only a file that is there is recorded
    lemma_changed_is_there(fs, s.files, sel, k);
    observing::pending_reaches_the_last_line_end(fs, f);
    recalling::recall_gives_back_committed_lines(fs, later, f, prefix);
    assert(separate(first.files)) by {
        assert forall|a: int, b: int| 0 <= a < b < first.files.len() implies (
        #[trigger] first.files[a]).path != (#[trigger] first.files[b]).path by {
            assert(first.files[a].path == s.files[a].path);
            assert(first.files[b].path == s.files[b].path);
        }
    }
    let a = fs::contents(fs, f.path);
    let b = fs::contents(later, f.path);
    let old_bytes = recall::recorded(later, e);
    assert(old_bytes =~= p.region.bytes);
    let g = first.files[i];
    assert(went_on(later, g));
    let rest = b.skip(g.cursor as int);
    let whole = b.skip(p.from as int);
    assert(whole =~= old_bytes + rest);
    observing::newlines_are_line_ends(old_bytes);
    observing::newlines_are_line_ends(rest);
    observing::newlines_are_line_ends(whole);
    crate::laws::lines::newlines_add_up(old_bytes, rest);
    if old_bytes.len() > 0 {
        assert(old_bytes.last() == a[p.region.end - 1]);
    }
    squash_extends_every_range(later, first, sel2, k, i, prefix);
    observing::pending_reaches_the_last_line_end(later, g);
    let q = pending::pending_of(later, g);
    let second = squash::squashed(later, first, sel2);
    let e2 = second.history.last().entries[k];
    squash_extends_every_range(later, first, sel2, k, i, false);
    let both = recall::recorded(later, e2);
    assert(recall::recalled_out(later, e, false) == old_bytes);
    assert(recall::recalled_out(later, e2, false) == both);
    assert(both =~= old_bytes + q.region.bytes);
    observing::newlines_are_line_ends(both);
    observing::newlines_are_line_ends(q.region.bytes);
    crate::laws::lines::newlines_add_up(old_bytes, q.region.bytes);
    assert(s.files[i].path == e.path);
}

pub proof fn lemma_changed_is_there<F: Fs>(fs: &F, files: Seq<FileView>, sel: Seq<int>, a: int)
    requires
        targets(files, sel),
        0 <= a < stepping::changed(fs, files, sel).len(),
    ensures
        fs.stat_of(files[stepping::changed(fs, files, sel)[a]].path) is Some,
    decreases sel.len(),
{
    if sel.len() > 0 {
        let init = sel.drop_last();
        let last = sel[sel.len() - 1];
        assert(last == sel.last());
        assert forall|k: int| 0 <= k < init.len() implies 0 <= #[trigger] init[k] < files.len()
            && init[k] == sel[k] by {}
        assert forall|x: int, y: int| 0 <= x < y < init.len() implies #[trigger] init[x]
            != #[trigger] init[y] by {
            assert(init[x] == sel[x] && init[y] == sel[y]);
        }
        moving::lemma_read_files_paths(fs, files, init, ""@);
        if a < stepping::changed(fs, files, init).len() {
            lemma_changed_is_there(fs, files, init, a);
        } else {
            let g = moving::read_files(fs, files, init, ""@).files[last];
            assert(g.path == files[last].path);
        }
    }
}

/// A squash takes in the ranges that it read one after the other. One more range of a path
/// that has an entry changes that one, the first of them: a range that goes on where the
/// entry ends extends it, any other takes its place; what the entry replaced stays. One of
/// a path without an entry becomes the last entry.
pub proof fn squash_takes_in_range_by_range(
    entries: Seq<EntryView>,
    new: Seq<EntryView>,
    n: EntryView,
    k: int,
)
    ensures
        squash::folded(entries, Seq::empty()) == entries,
        ({
            let before = squash::folded(entries, new);
            let after = squash::folded(entries, new.push(n));
            &&& 0 <= k < before.len() && before[k].path == n.path && (forall|j: int|
                0 <= j < k ==> (#[trigger] before[j]).path != n.path) ==> ({
                let e = before[k];
                let goes_on = e.dev == n.dev && e.ino == n.ino && e.to == n.from;
                after == before.update(
                    k,
                    EntryView {
                        path: n.path,
                        from: if goes_on {
                            e.from
                        } else {
                            n.from
                        },
                        to: n.to,
                        dev: n.dev,
                        ino: n.ino,
                        lines: if !goes_on {
                            n.lines
                        } else if e.lines + n.lines <= usize::MAX {
                            (e.lines + n.lines) as usize
                        } else {
                            usize::MAX
                        },
                        prev_cursor: e.prev_cursor,
                        prev_dev: e.prev_dev,
                        prev_ino: e.prev_ino,
                    },
                )
            })
            &&& (forall|j: int| 0 <= j < before.len() ==> (#[trigger] before[j]).path != n.path)
                ==> after == before.push(n)
        }),
{
    assert(new.push(n).drop_last() =~= new);
    let before = squash::folded(entries, new);
    stepping::lemma_entry_at(before, n.path, 0);
    if 0 <= k < before.len() && before[k].path == n.path && (forall|j: int|
        0 <= j < k ==> (#[trigger] before[j]).path != n.path) {
        match squash::entry_at(before, n.path, 0) {
            Some(m) => {
                if m < k {
                    assert(before[m].path != n.path);
                }
                if k < m {
                    assert(before[k].path != n.path);
                }
            },
            None => {
                assert(before[k].path != n.path);
            },
        }
    }
    if forall|j: int| 0 <= j < before.len() ==> (#[trigger] before[j]).path != n.path {
        if let Some(m) = squash::entry_at(before, n.path, 0) {
            assert(before[m].path != n.path);
        }
    }
}

/// What a squash folds into the newest checkpoint is what a commit over the same targets
/// would have recorded.
pub proof fn squash_folds_what_a_commit_records<F: Fs>(
    fs: &F,
    s: StateView,
    sel: Seq<int>,
    message: Option<Seq<char>>,
    created_at: Option<Seq<char>>,
)
    requires
        s.history.len() > 0,
        moving::read_files(fs, s.files, sel, ""@).entries.len() > 0,
    ensures
        squash::squashed(fs, s, sel).history.last().entries == squash::folded(
            s.history.last().entries,
            commit::committed(fs, s, sel, message, created_at).history.last().entries,
        ),
        squash::squashed(fs, s, sel).history.last().depth == s.history.last().depth,
        squash::squashed(fs, s, sel).files == commit::committed(
            fs,
            s,
            sel,
            message,
            created_at,
        ).files,
{
    let c = commit::checkpoint(fs, s, sel, message, created_at);
    let after = commit::committed(fs, s, sel, message, created_at);
    assert(after.history == commit::newest(s.history.push(c)));
    assert(after.history.last() == c);
}

} // verus!
