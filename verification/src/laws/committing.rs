//! What a commit and an advance record, move and say.

use vstd::prelude::*;

use crate::commands::commit;
use crate::commands::moving;
use crate::commands::recall;
use crate::commands::show;
use crate::commands::squash;
use crate::cursor;
use crate::fs;
use crate::fs::Fs;
use crate::laws::observing;
use crate::laws::reading;
use crate::laws::showing;
use crate::laws::squashing;
use crate::laws::stepping;
use crate::path;
use crate::pending;
use crate::state::{EntryView, FileView, StateView};
use crate::text;

verus! {

/// A commit over a file that has new lines records them: recalling the checkpoint prints of
/// the file what `show` printed before, and counts its lines; and the entry keeps the read
/// position that it replaced.
pub proof fn commit_records_every_target<F: Fs>(
    fs: &F,
    s: StateView,
    sel: Seq<int>,
    message: Option<Seq<char>>,
    created_at: Option<Seq<char>>,
    i: int,
    prefix: bool,
) -> (m: int)
    requires
        squashing::targets(s.files, sel),
        sel.contains(i),
        reading::undisturbed(fs, s.files[i].path),
        fs.stat_of(s.files[i].path) is Some,
        show::shown_out(fs, s.files[i], false).len() > 0,
    ensures
        ({
            let f = s.files[i];
            let after = commit::committed(fs, s, sel, message, created_at);
            let e = after.history.last().entries[m];
            &&& after.history.len() > 0
            &&& 0 <= m < after.history.last().entries.len()
            &&& e.path == f.path
            &&& e.from == cursor::read_from(f, fs.stat_of(f.path))
            &&& e.to == after.files[i].cursor
            &&& e.dev == fs.stat_of(f.path)->0.dev
            &&& e.ino == fs.stat_of(f.path)->0.ino
            &&& e.lines == observing::line_ends(fs::contents(fs, f.path).skip(e.from as int))
            &&& recall::recalled_out(fs, e, prefix) == show::shown_out(fs, f, prefix)
            &&& e.prev_cursor == f.cursor && e.prev_dev == f.dev && e.prev_ino == f.ino
        }),
{
    let f = s.files[i];
    let run = moving::read_files(fs, s.files, sel, ""@);
    let t = stepping::changed(fs, s.files, sel);
    assert(stepping::in_range(s.files, sel));
    stepping::lemma_run(fs, s.files, sel);
    observing::pending_reaches_the_last_line_end(fs, f);
    let p = pending::pending_of(fs, f);
    assert(p.region.lines > 0) by {
        observing::newlines_are_line_ends(p.region.bytes);
        assert(p.region.bytes.last() == 10u8);
    }
    squashing::run_changes_what_moved(fs, s.files, sel, i);
    let m = choose|m: int| 0 <= m < t.len() && t[m] == i;
    squashing::run_records_what_was_pending(fs, s.files, sel, m);
    let c = commit::checkpoint(fs, s, sel, message, created_at);
    let after = commit::committed(fs, s, sel, message, created_at);
    assert(after.history == commit::newest(s.history.push(c)));
    assert(after.history.last() == c);
    assert(recall::recorded(fs, run.entries[m]) =~= p.region.bytes);
    m
}

/// A commit records nothing but its targets: each entry is of a target that is there, with
/// the identity that it has and the lines that were pending of it.
pub proof fn commit_records_nothing_else<F: Fs>(
    fs: &F,
    s: StateView,
    sel: Seq<int>,
    message: Option<Seq<char>>,
    created_at: Option<Seq<char>>,
    m: int,
) -> (i: int)
    requires
        squashing::targets(s.files, sel),
        0 <= m < commit::checkpoint(fs, s, sel, message, created_at).entries.len(),
        forall|i: int|
            0 <= i < s.files.len() ==> reading::undisturbed(fs, (#[trigger] s.files[i]).path),
    ensures
        ({
            let f = s.files[i];
            let after = commit::committed(fs, s, sel, message, created_at);
            let e = after.history.last().entries[m];
            &&& after.history.len() > 0
            &&& 0 <= i < s.files.len()
            &&& sel.contains(i)
            &&& e.path == f.path
            &&& fs.stat_of(f.path) is Some
            &&& e.from == cursor::read_from(f, fs.stat_of(f.path))
            &&& observing::is_last_line_end(
                fs::contents(fs, f.path),
                e.from as int,
                e.to as int,
            )
            &&& e.dev == fs.stat_of(f.path)->0.dev
            &&& e.ino == fs.stat_of(f.path)->0.ino
            &&& e.lines == observing::line_ends(fs::contents(fs, f.path).skip(e.from as int))
            &&& e.prev_cursor == f.cursor && e.prev_dev == f.dev && e.prev_ino == f.ino
        }),
{
    let run = moving::read_files(fs, s.files, sel, ""@);
    let t = stepping::changed(fs, s.files, sel);
    assert(stepping::in_range(s.files, sel));
    stepping::lemma_run(fs, s.files, sel);
    squashing::run_records_what_was_pending(fs, s.files, sel, m);
    squashing::lemma_changed_is_there(fs, s.files, sel, m);
    let i = t[m];
    observing::pending_reaches_the_last_line_end(fs, s.files[i]);
    let c = commit::checkpoint(fs, s, sel, message, created_at);
    let after = commit::committed(fs, s, sel, message, created_at);
    assert(after.history == commit::newest(s.history.push(c)));
    assert(after.history.last() == c);
    i
}

/// A commit that finds something new numbers the checkpoint with the next id, counting from
/// one, labels and stamps it as asked, and keeps of the older ones as many as are
/// remembered, the newest.
pub proof fn commit_numbers_and_labels<F: Fs>(
    fs: &F,
    s: StateView,
    sel: Seq<int>,
    message: Option<Seq<char>>,
    created_at: Option<Seq<char>>,
)
    requires
        s.next_id < u32::MAX,
        moving::read_files(fs, s.files, sel, ""@).entries.len() > 0,
    ensures
        ({
            let after = commit::committed(fs, s, sel, message, created_at);
            let c = after.history.last();
            let old = after.history.drop_last();
            &&& 1 <= after.history.len() <= 200
            &&& c.message == message
            &&& c.created_at == created_at
            &&& c.id == (if s.next_id == 0 {
                1
            } else {
                s.next_id
            })
            &&& after.next_id == c.id + 1
            &&& after.undo == s.undo
            &&& s.history.len() <= 199 ==> old == s.history
            &&& s.history.len() > 199 ==> old.len() == 199 && old == s.history.skip(
                s.history.len() - 199,
            )
        }),
{
    let c = commit::checkpoint(fs, s, sel, message, created_at);
    let after = commit::committed(fs, s, sel, message, created_at);
    let grown = s.history.push(c);
    assert(after.history == commit::newest(grown));
    assert(after.history.last() == c);
    if s.history.len() <= 199 {
        assert(after.history.drop_last() =~= s.history);
    } else {
        assert(after.history.drop_last() =~= s.history.skip(s.history.len() - 199));
    }
}

/// A commit and an advance move each target that is there to behind its last complete line
/// and take over its identity. Every other file, and one that is not there, stays.
pub proof fn commit_moves_its_targets<F: Fs>(
    fs: &F,
    s: StateView,
    sel: Seq<int>,
    message: Option<Seq<char>>,
    created_at: Option<Seq<char>>,
    i: int,
)
    requires
        squashing::targets(s.files, sel),
        0 <= i < s.files.len(),
        reading::undisturbed(fs, s.files[i].path),
    ensures
        ({
            let f = s.files[i];
            let g = commit::committed(fs, s, sel, message, created_at).files[i];
            &&& commit::committed(fs, s, sel, message, created_at).files.len() == s.files.len()
            &&& commit::advanced(fs, s, sel).files == commit::committed(
                fs,
                s,
                sel,
                message,
                created_at,
            ).files
            &&& squash::squashed(fs, s, sel).files == commit::advanced(fs, s, sel).files
            &&& g.path == f.path
            &&& !sel.contains(i) || fs.stat_of(f.path) is None ==> g == f
            &&& sel.contains(i) && fs.stat_of(f.path) is Some ==> {
                &&& g.dev == fs.stat_of(f.path)->0.dev
                &&& g.ino == fs.stat_of(f.path)->0.ino
                &&& observing::is_last_line_end(
                    fs::contents(fs, f.path),
                    cursor::read_from(f, fs.stat_of(f.path)) as int,
                    g.cursor as int,
                )
            }
        }),
{
    stepping::lemma_verb(fs, s.files, sel, ""@, "advancing past "@);
    let f = s.files[i];
    let run = moving::read_files(fs, s.files, sel, ""@);
    let t = stepping::changed(fs, s.files, sel);
    assert(stepping::in_range(s.files, sel));
    stepping::lemma_run(fs, s.files, sel);
    if !sel.contains(i) {
        reading::reading_keeps_other_files(fs, s.files, sel, ""@, i);
    } else if fs.stat_of(f.path) is None {
        if t.contains(i) {
            let m = choose|m: int| 0 <= m < t.len() && t[m] == i;
            squashing::lemma_changed_is_there(fs, s.files, sel, m);
        }
    } else {
        observing::pending_reaches_the_last_line_end(fs, f);
        let p = pending::pending_of(fs, f);
        if moving::moves(f, p) {
            squashing::run_changes_what_moved(fs, s.files, sel, i);
            let m = choose|m: int| 0 <= m < t.len() && t[m] == i;
            squashing::run_records_what_was_pending(fs, s.files, sel, m);
        } else {
            if t.contains(i) {
                let m = choose|m: int| 0 <= m < t.len() && t[m] == i;
                squashing::run_records_what_was_pending(fs, s.files, sel, m);
            }
            assert(run.files[i] == moving::settled(f, p) || run.files[i] == f);
            stepping::lemma_unmoved(fs, f);
        }
    }
}

/// An advance that finds something new puts the position of every file on the undo stack,
/// and leaves the checkpoints as they are.
pub proof fn advance_remembers_every_position<F: Fs>(fs: &F, s: StateView, sel: Seq<int>, i: int)
    requires
        moving::read_files(fs, s.files, sel, "advancing past "@).entries.len() > 0,
        0 <= i < s.files.len(),
    ensures
        ({
            let after = commit::advanced(fs, s, sel);
            &&& after.undo.len() == s.undo.len() + 1
            &&& after.undo.drop_last() == s.undo
            &&& after.undo.last().len() == s.files.len()
            &&& after.undo.last()[i].cursor == s.files[i].cursor
            &&& after.undo.last()[i].dev == s.files[i].dev
            &&& after.undo.last()[i].ino == s.files[i].ino
            &&& after.history == s.history
            &&& after.next_id == s.next_id
        }),
{
    let after = commit::advanced(fs, s, sel);
    assert(after.undo.drop_last() =~= s.undo);
}

/// A run goes through its targets one after the other. Of one more target that is there it
/// tells last: the remark on it if there is one; and if its record changes, how many lines
/// it moves past, from where to where, and how long the partial line is that it keeps. It
/// records just that, and moves the file to the end of its last complete line.
pub proof fn run_reads_one_more_target<F: Fs>(
    fs: &F,
    files: Seq<FileView>,
    sel: Seq<int>,
    i: int,
    verb: Seq<char>,
    end: int,
)
    requires
        stepping::in_range(files, sel),
        0 <= i < files.len(),
        fs.stat_of(files[i].path) is Some,
        reading::fits_in_memory(fs, files[i].path),
        0 <= end <= u64::MAX,
        observing::is_last_line_end(
            fs::contents(fs, files[i].path),
            cursor::read_from(
                moving::read_files(fs, files, sel, verb).files[i],
                fs.stat_of(files[i].path),
            ) as int,
            end,
        ),
    ensures
        ({
            let run = moving::read_files(fs, files, sel, verb);
            let more = moving::read_files(fs, files, sel.push(i), verb);
            let f = run.files[i];
            let st = fs.stat_of(f.path)->0;
            let b = fs::contents(fs, f.path);
            let from = cursor::read_from(f, fs.stat_of(f.path));
            let ev = cursor::event_of(f, fs.stat_of(f.path));
            let count = observing::line_ends(observing::behind(b, from as int));
            let remark = match pending::pending_of(fs, f).note {
                Some(note) => "  "@ + path::short_of(f.path) + ": "@ + note + "\n"@,
                None => Seq::empty(),
            };
            let partial = if end < b.len() {
                ", +"@ + text::decimal((b.len() - end) as nat) + "b partial kept"@
            } else {
                Seq::empty()
            };
            let line = "  "@ + path::short_of(f.path) + ": "@ + verb + text::decimal(count)
                + " line(s)  ["@ + text::decimal(from as nat) + " → "@ + text::decimal(end as nat)
                + "]"@ + partial + "\n"@;
            &&& f.path == files[i].path
            &&& more.notes == run.notes + remark
            &&& more.files == run.files.update(
                i,
                FileView { path: f.path, dev: st.dev, ino: st.ino, cursor: end as u64 },
            )
            &&& if ev is Same && end == f.cursor {
                more.lines == run.lines && more.entries == run.entries
            } else {
                more.lines == run.lines + line && more.entries == run.entries.push(
                    EntryView {
                        path: f.path,
                        from,
                        to: end as u64,
                        dev: st.dev,
                        ino: st.ino,
                        lines: count as usize,
                        prev_cursor: f.cursor,
                        prev_dev: f.dev,
                        prev_ino: f.ino,
                    },
                )
            }
        }),
{
    let more = sel.push(i);
    assert(more.drop_last() =~= sel);
    assert(more.last() == i);
    moving::lemma_read_files_paths(fs, files, sel, verb);
    let run = moving::read_files(fs, files, sel, verb);
    let f = run.files[i];
    assert(f.path == files[i].path);
    showing::pending_is_what_stands_behind(fs, f, end);
    let p = pending::pending_of(fs, f);
    let b = fs::contents(fs, f.path);
    if p.event is Same && end == f.cursor {
        assert(p.region.lines == 0) by {
            let tail = observing::behind(b, p.from as int);
            observing::newlines_are_line_ends(tail);
            lemma_no_line_ends(tail);
        }
    }
}

proof fn lemma_no_line_ends(b: Seq<u8>)
    requires
        forall|i: int| 0 <= i < b.len() ==> b[i] != 10u8,
    ensures
        cursor::newlines(b) == 0,
    decreases b.len(),
{
    if b.len() > 0 {
        lemma_no_line_ends(b.drop_last());
    }
}

/// Of one more target that is not there, a run tells the remark and nothing else.
pub proof fn run_tells_of_absent_targets<F: Fs>(
    fs: &F,
    files: Seq<FileView>,
    sel: Seq<int>,
    i: int,
    verb: Seq<char>,
)
    requires
        stepping::in_range(files, sel),
        0 <= i < files.len(),
        fs.stat_of(files[i].path) is None,
    ensures
        ({
            let run = moving::read_files(fs, files, sel, verb);
            let more = moving::read_files(fs, files, sel.push(i), verb);
            let f = run.files[i];
            &&& more.notes == run.notes + ("  "@ + path::short_of(f.path) + ": "@ + (
            if f.ino == 0 {
                "not present"@
            } else {
                "DISAPPEARED since last seen"@
            }) + "\n"@)
            &&& more.lines == run.lines
            &&& more.entries == run.entries
            &&& more.files == run.files
        }),
{
    let more = sel.push(i);
    assert(more.drop_last() =~= sel);
    assert(more.last() == i);
    moving::lemma_read_files_paths(fs, files, sel, verb);
    let f = moving::read_files(fs, files, sel, verb).files[i];
    assert(f.path == files[i].path);
    observing::remark_on_what_happened(fs, f);
}

/// A file that was read already has nothing new at the same observation: naming it again
/// moves and records nothing more.
pub proof fn naming_a_file_twice_adds_nothing<F: Fs>(
    fs: &F,
    files: Seq<FileView>,
    sel: Seq<int>,
    i: int,
    verb: Seq<char>,
)
    requires
        stepping::in_range(files, sel),
        sel.contains(i),
        reading::undisturbed(fs, files[i].path),
        fs.stat_of(files[i].path) is Some,
        fs.stat_of(files[i].path)->0.ino != 0,
    ensures
        moving::read_files(fs, files, sel.push(i), verb) == moving::read_files(fs, files, sel, verb),
{
    let more = sel.push(i);
    assert(more.drop_last() =~= sel);
    assert(more.last() == i);
    lemma_read_file_is_done(fs, files, sel, i, verb);
    moving::lemma_read_files_paths(fs, files, sel, verb);
    let k = choose|k: int| 0 <= k < sel.len() && sel[k] == i;
    assert(0 <= sel[k] < files.len());
    let run = moving::read_files(fs, files, sel, verb);
    let g = run.files[i];
    observing::remark_on_what_happened(fs, g);
    assert(moving::note_line(g.path, None) =~= Seq::empty());
    assert(run.notes + Seq::<char>::empty() =~= run.notes);
    assert(moving::settled(g, pending::pending_of(fs, g)) =~= g);
    assert(run.files.update(i, g) =~= run.files);
    assert(moving::read_files(fs, files, more, verb) =~= run);
}

proof fn lemma_read_file_is_done<F: Fs>(
    fs: &F,
    files: Seq<FileView>,
    sel: Seq<int>,
    i: int,
    verb: Seq<char>,
)
    requires
        stepping::in_range(files, sel),
        sel.contains(i),
        reading::undisturbed(fs, files[i].path),
        fs.stat_of(files[i].path) is Some,
        fs.stat_of(files[i].path)->0.ino != 0,
    ensures
        ({
            let g = moving::read_files(fs, files, sel, verb).files[i];
            let q = pending::pending_of(fs, g);
            &&& g.path == files[i].path
            &&& q.event is Same
            &&& q.region.lines == 0
            &&& q.region.end == g.cursor
            &&& q.dev == g.dev
            &&& q.ino == g.ino
        }),
    decreases sel.len(),
{
    let init = sel.drop_last();
    let last = sel[sel.len() - 1];
    assert(last == sel.last());
    assert forall|k: int| 0 <= k < init.len() implies 0 <= #[trigger] init[k] < files.len()
        && init[k] == sel[k] by {}
    moving::lemma_read_files_paths(fs, files, init, verb);
    moving::lemma_read_files_paths(fs, files, sel, verb);
    let f = moving::read_files(fs, files, init, verb).files[last];
    if last == i {
        assert(f.path == files[i].path);
        reading::reading_leaves_only_the_partial(fs, f);
        observing::pending_reaches_the_last_line_end(fs, f);
        let g = moving::settled(f, pending::pending_of(fs, f));
        assert(g.cursor <= fs.stat_of(f.path)->0.size);
    } else {
        let k = choose|k: int| 0 <= k < sel.len() && sel[k] == i;
        assert(init[k] == i);
        lemma_read_file_is_done(fs, files, init, i, verb);
    }
}

/// A run over nothing tells nothing.
pub proof fn run_over_nothing<F: Fs>(fs: &F, files: Seq<FileView>, verb: Seq<char>)
    ensures
        ({
            let run = moving::read_files(fs, files, Seq::empty(), verb);
            run.files == files && run.entries.len() == 0 && run.notes.len() == 0
                && run.lines.len() == 0
        }),
{
}

/// What a commit, an advance and a squash say: the remarks on the targets, then what became
/// of them, then a line for each file whose record changed; or that there was nothing.
pub proof fn moving_commands_say_what_they_did<F: Fs>(
    fs: &F,
    s: StateView,
    sel: Seq<int>,
    message: Option<Seq<char>>,
    created_at: Option<Seq<char>>,
)
    requires
        s.next_id < u32::MAX,
    ensures
        ({
            let run = moving::read_files(fs, s.files, sel, ""@);
            let after = commit::committed(fs, s, sel, message, created_at);
            let quoted = match message {
                Some(m) => " \""@ + m + "\""@,
                None => Seq::empty(),
            };
            &&& run.entries.len() == 0 ==> commit::commit_text(fs, s, sel, message) == run.notes
                + "nothing to commit\n"@
            &&& run.entries.len() > 0 ==> commit::commit_text(fs, s, sel, message) == run.notes + (
            "committed #"@ + text::decimal(after.history.last().id as nat) + quoted + ":\n"@
                + run.lines)
        }),
        ({
            let run = moving::read_files(fs, s.files, sel, "advancing past "@);
            commit::advance_text(fs, s, sel) == run.notes + (if run.entries.len() == 0 {
                "nothing to advance\n"@
            } else {
                run.lines
            })
        }),
        s.history.len() > 0 ==> ({
            let run = moving::read_files(fs, s.files, sel, ""@);
            let c = s.history.last();
            let quoted = match c.message {
                Some(m) => " \""@ + m + "\""@,
                None => Seq::empty(),
            };
            squash::squash_text(fs, s, sel) == run.notes + (if run.entries.len() == 0 {
                "nothing to squash\n"@
            } else {
                "squashed into #"@ + text::decimal(c.id as nat) + quoted + ":\n"@ + run.lines
            })
        }),
{
    if moving::read_files(fs, s.files, sel, ""@).entries.len() > 0 {
        commit_numbers_and_labels(fs, s, sel, message, created_at);
    }
}

} // verus!
