//! Moving cursors past new lines.

use vstd::prelude::*;

use crate::cursor::Event;
use crate::fs::Fs;
use crate::path;
use crate::path::short;
use crate::pending;
use crate::pending::{pending, PendingView};
use crate::state;
use crate::state::{CommitEntry, EntryView, FileState, FileView};
use crate::text;
use crate::text::push_decimal;

verus! {

/// A file read up to its last complete line.
pub open spec fn settled(f: FileView, p: PendingView) -> FileView {
    FileView { path: f.path, dev: p.dev, ino: p.ino, cursor: p.region.end }
}

/// Whether reading a file changes what is recorded of it.
pub open spec fn moves(f: FileView, p: PendingView) -> bool {
    p.region.lines > 0 || !(p.event is Same) || p.region.end != f.cursor
}

/// The record of a file that was read: the range, the identity, and what it replaced.
pub open spec fn entry_of(f: FileView, p: PendingView) -> EntryView {
    EntryView {
        path: f.path,
        from: p.from,
        to: p.region.end,
        dev: p.dev,
        ino: p.ino,
        lines: p.region.lines,
        prev_cursor: f.cursor,
        prev_dev: f.dev,
        prev_ino: f.ino,
    }
}

/// What is said of a range that was moved past, `verb` before the number of lines.
pub open spec fn range_line(verb: Seq<char>, e: EntryView, partial: usize) -> Seq<char> {
    "  "@ + path::short_of(e.path) + ": "@ + verb + text::decimal(e.lines as nat)
        + " line(s)  ["@ + text::decimal(e.from as nat) + " → "@ + text::decimal(e.to as nat)
        + "]"@ + kept(partial) + "\n"@
}

/// What is said of a trailing partial line that stays uncommitted.
pub open spec fn kept(partial: usize) -> Seq<char> {
    if partial > 0 {
        ", +"@ + text::decimal(partial as nat) + "b partial kept"@
    } else {
        Seq::empty()
    }
}

/// A remark on a file, on a line of its own.
pub open spec fn note_line(p: Seq<char>, note: Option<Seq<char>>) -> Seq<char> {
    match note {
        Some(note) => "  "@ + path::short_of(p) + ": "@ + note + "\n"@,
        None => Seq::empty(),
    }
}

/// What came of reading files one after the other.
#[verifier::ext_equal]
pub struct RunView {
    pub files: Seq<FileView>,
    /// The files whose record changed.
    pub entries: Seq<EntryView>,
    /// The remarks on the files.
    pub notes: Seq<char>,
    /// The ranges that were moved past.
    pub lines: Seq<char>,
}

/// Reads file `i` to its last complete line. An absent file only earns a remark.
pub open spec fn read_file<F: Fs>(fs: &F, r: RunView, i: int, verb: Seq<char>) -> RunView {
    let f = r.files[i];
    let p = pending::pending_of(fs, f);
    let notes = r.notes + note_line(f.path, p.note);
    if p.event.is_absent() {
        RunView { notes, ..r }
    } else if moves(f, p) {
        RunView {
            files: r.files.update(i, settled(f, p)),
            entries: r.entries.push(entry_of(f, p)),
            notes,
            lines: r.lines + range_line(verb, entry_of(f, p), p.region.partial),
        }
    } else {
        RunView { files: r.files.update(i, settled(f, p)), notes, ..r }
    }
}

/// Reads the targeted files one after the other.
pub open spec fn read_files<F: Fs>(
    fs: &F,
    files: Seq<FileView>,
    sel: Seq<int>,
    verb: Seq<char>,
) -> RunView
    decreases sel.len(),
{
    if sel.len() == 0 {
        RunView { files, entries: Seq::empty(), notes: Seq::empty(), lines: Seq::empty() }
    } else {
        read_file(fs, read_files(fs, files, sel.drop_last(), verb), sel.last(), verb)
    }
}

/// What came of reading files one after the other.
pub struct Run {
    pub entries: Vec<CommitEntry>,
    pub notes: String,
    pub lines: String,
}

/// Reading keeps the files and their paths.
pub proof fn lemma_read_files_paths<F: Fs>(
    fs: &F,
    files: Seq<FileView>,
    sel: Seq<int>,
    verb: Seq<char>,
)
    requires
        forall|k: int| 0 <= k < sel.len() ==> 0 <= #[trigger] sel[k] < files.len(),
    ensures
        read_files(fs, files, sel, verb).files.len() == files.len(),
        forall|i: int|
            0 <= i < files.len() ==> (#[trigger] read_files(fs, files, sel, verb).files[i]).path
                == files[i].path,
    decreases sel.len(),
{
    if sel.len() > 0 {
        lemma_read_files_paths(fs, files, sel.drop_last(), verb);
        assert(sel[sel.len() - 1] == sel.last());
    }
}

fn push_note_line(s: &mut String, p: &str, note: &Option<String>)
    ensures
        final(s)@ == old(s)@ + note_line(p@, state::text_of(*note)),
{
    if let Some(note) = note {
        s.append("  ");
        s.append(short(p));
        s.append(": ");
        s.append(note.as_str());
        s.append("\n");
    }
    assert(s@ =~= old(s)@ + note_line(p@, state::text_of(*note)));
}

pub fn push_range_line(s: &mut String, verb: &str, e: &CommitEntry, partial: usize)
    ensures
        final(s)@ == old(s)@ + range_line(verb@, e@, partial),
{
    s.append("  ");
    s.append(short(e.path.as_str()));
    s.append(": ");
    s.append(verb);
    push_decimal(s, e.lines as u64);
    s.append(" line(s)  [");
    push_decimal(s, e.from);
    s.append(" → ");
    push_decimal(s, e.to);
    s.append("]");
    if partial > 0 {
        s.append(", +");
        push_decimal(s, partial as u64);
        s.append("b partial kept");
    }
    s.append("\n");
    assert(s@ =~= old(s)@ + range_line(verb@, e@, partial));
}

/// Moves the cursors of the targeted files past their new complete lines.
pub fn read_all<F: Fs>(fs: &F, files: &mut Vec<FileState>, sel: &Vec<usize>, verb: &str) -> (r: Run)
    requires
        forall|k: int| 0 <= k < sel@.len() ==> #[trigger] sel@[k] < old(files)@.len(),
    ensures
        ({
            let run = read_files(
                fs,
                state::files_view(old(files)@),
                crate::commands::select::indices(sel@),
                verb@,
            );
            &&& state::files_view(final(files)@) == run.files
            &&& state::entries_view(r.entries@) == run.entries
            &&& r.notes@ == run.notes
            &&& r.lines@ == run.lines
        }),
{
    let ghost start = state::files_view(files@);
    let ghost targets = crate::commands::select::indices(sel@);
    let mut r = Run { entries: Vec::new(), notes: String::new(), lines: String::new() };
    let mut k: usize = 0;
    assert(targets.take(0) =~= Seq::empty());
    assert(state::entries_view(r.entries@) =~= Seq::empty());
    while k < sel.len()
        invariant
            k <= sel@.len(),
            files@.len() == old(files)@.len(),
            targets == crate::commands::select::indices(sel@),
            forall|k: int| 0 <= k < sel@.len() ==> #[trigger] sel@[k] < old(files)@.len(),
            state::files_view(files@) == read_files(fs, start, targets.take(k as int), verb@).files,
            state::entries_view(r.entries@) == read_files(
                fs,
                start,
                targets.take(k as int),
                verb@,
            ).entries,
            r.notes@ == read_files(fs, start, targets.take(k as int), verb@).notes,
            r.lines@ == read_files(fs, start, targets.take(k as int), verb@).lines,
        decreases sel@.len() - k,
    {
        let ghost before = state::files_view(files@);
        let ghost entries = state::entries_view(r.entries@);
        let i: usize = sel[k];
        proof {
            assert(targets.take(k + 1).drop_last() =~= targets.take(k as int));
            assert(targets.take(k + 1).last() == i);
            assert(before[i as int] == files@[i as int]@);
        }
        let p = pending(fs, &files[i]);
        push_note_line(&mut r.notes, files[i].path.as_str(), &p.note);
        if !p.event.absent() {
            let prev_cursor: u64 = files[i].cursor;
            let prev_dev: u64 = files[i].dev;
            let prev_ino: u64 = files[i].ino;
            let f = &mut files[i];
            f.cursor = p.region.end;
            f.dev = p.dev;
            f.ino = p.ino;
            assert(state::files_view(files@) =~= before.update(
                i as int,
                settled(before[i as int], p@),
            ));
            if p.region.lines > 0 || p.event != Event::Same || p.region.end != prev_cursor {
                let e = CommitEntry {
                    path: files[i].path.clone(),
                    from: p.from,
                    to: p.region.end,
                    dev: p.dev,
                    ino: p.ino,
                    lines: p.region.lines,
                    prev_cursor,
                    prev_dev,
                    prev_ino,
                };
                push_range_line(&mut r.lines, verb, &e, p.region.partial);
                r.entries.push(e);
                assert(e@ =~= entry_of(before[i as int], p@));
                assert(state::entries_view(r.entries@) =~= entries.push(e@));
            }
        }
        k += 1;
    }
    assert(targets.take(k as int) =~= targets);
    r
}

} // verus!
