//! `status` and `list`: where the session stands.

use vstd::prelude::*;

use crate::commands::undo;
use crate::cursor;
use crate::cursor::line_stats;
use crate::fs::Fs;
use crate::memfs;
use crate::path;
use crate::path::short;
use crate::pending;
use crate::pending::{pending, Pending, PendingView};
use crate::state;
use crate::state::{Commit, CommitEntry, CommitView, EntryView, FileState, FileView, State, StateView};
use crate::text;
use crate::text::{push_decimal, push_padded, push_wide_decimal};

verus! {

/// The width of the widest short name, in bytes.
pub open spec fn name_width(files: Seq<FileView>) -> nat
    decreases files.len(),
{
    if files.len() == 0 {
        0
    } else {
        let w = name_width(files.drop_last());
        let n = memfs::utf8(path::short_of(files.last().path)).len();
        if n > w {
            n
        } else {
            w
        }
    }
}

/// How much of a file is unseen, as the dashboard tells it.
pub open spec fn unseen(pend: PendingView) -> Seq<char> {
    if pend.event.is_absent() {
        Seq::empty()
    } else if pend.region.lines == 0 && pend.region.partial == 0 {
        "   up to date"@
    } else {
        "   "@ + text::decimal(pend.region.lines as nat) + " new"@ + if pend.region.partial > 0 {
            " (+"@ + text::decimal(pend.region.partial as nat) + "b partial)"@
        } else {
            Seq::empty()
        }
    }
}

/// The line of the cursor, and the number of lines; zero for a file that is not there.
pub open spec fn line_position(pend: PendingView) -> (nat, nat) {
    if pend.event.is_absent() {
        (0, 0)
    } else {
        (
            cursor::newlines(cursor::before(pend.bytes, pend.from)),
            cursor::newlines(pend.bytes),
        )
    }
}

/// The dashboard line of a file: the cursor as a line position, how much is unseen, and
/// the remark on what happened to the file.
pub open spec fn status_line(p: Seq<char>, pend: PendingView, width: nat) -> Seq<char> {
    let (at, total) = line_position(pend);
    "  "@ + text::pad_right(path::short_of(p), width) + "  line "@ + text::decimal(at) + "/"@
        + text::decimal(total) + unseen(pend) + (match pend.note {
        Some(note) => "   "@ + note,
        None => Seq::empty(),
    }) + "\n"@
}

/// All that `status` says.
pub open spec fn status_text<F: Fs>(fs: &F, s: StateView, session: Seq<char>) -> Seq<char> {
    "session: "@ + session + "  ("@ + text::decimal(undo::steps(s)) + " undo)\n"@ + text::concat(
        Seq::new(
            s.files.len(),
            |i: int|
                status_line(
                    s.files[i].path,
                    pending::pending_of(fs, s.files[i]),
                    name_width(s.files),
                ),
        ),
    )
}

/// An optional text, a dash where there is none.
pub open spec fn or_dash(s: Option<Seq<char>>) -> Seq<char> {
    match s {
        Some(t) => t,
        None => "-"@,
    }
}

/// The line count of one file of a checkpoint.
pub open spec fn count_of(e: EntryView) -> Seq<char> {
    path::short_of(e.path) + ": "@ + text::decimal(e.lines as nat) + " lines"@
}

/// The line counts of a checkpoint.
pub open spec fn counts_of(entries: Seq<EntryView>) -> Seq<char> {
    text::join(Seq::new(entries.len(), |k: int| count_of(entries[k])), ", "@)
}

/// The line of a checkpoint: id, time, message, and line counts.
pub open spec fn list_line(c: CommitView) -> Seq<char> {
    "  #"@ + text::pad_right(text::decimal(c.id as nat), 3) + " "@ + text::pad_right(
        or_dash(c.created_at),
        8,
    ) + " "@ + text::pad_right(or_dash(c.message), 14) + " "@ + counts_of(c.entries) + "\n"@
}

/// The short names of the files with pending lines, in order.
pub open spec fn unread<F: Fs>(fs: &F, files: Seq<FileView>) -> Seq<Seq<char>>
    decreases files.len(),
{
    if files.len() == 0 {
        Seq::empty()
    } else {
        let before = unread(fs, files.drop_last());
        if pending::pending_of(fs, files.last()).region.lines > 0 {
            before.push(path::short_of(files.last().path))
        } else {
            before
        }
    }
}

/// All that `list` says.
pub open spec fn list_text<F: Fs>(fs: &F, s: StateView, session: Seq<char>) -> Seq<char> {
    "history: "@ + session + "  ("@ + text::decimal(s.history.len()) + " checkpoint(s))\n"@ + (
    if s.history.len() == 0 {
        "  (none yet — `commit` to create one)\n"@
    } else {
        text::concat(Seq::new(s.history.len(), |k: int| list_line(s.history[k])))
    }) + (if unread(fs, s.files).len() > 0 {
        "uncommitted: "@ + text::join(unread(fs, s.files), ", "@) + "\n"@
    } else {
        Seq::empty()
    })
}

fn widest_name(files: &Vec<FileState>) -> (w: usize)
    ensures
        w == name_width(state::files_view(files@)),
{
    let ghost view = state::files_view(files@);
    let mut w: usize = 0;
    let mut i: usize = 0;
    assert(view.take(0) =~= Seq::empty());
    while i < files.len()
        invariant
            i <= files@.len(),
            view == state::files_view(files@),
            w == name_width(view.take(i as int)),
        decreases files@.len() - i,
    {
        assert(view.take(i + 1).drop_last() =~= view.take(i as int));
        assert(view.take(i + 1).last() == files@[i as int]@);
        let n: usize = short(files[i].path.as_str()).as_bytes().len();
        if n > w {
            w = n;
        }
        i += 1;
    }
    assert(view.take(i as int) =~= view);
    w
}

fn push_unseen(err: &mut String, pend: &Pending)
    ensures
        final(err)@ == old(err)@ + unseen(pend@),
{
    if pend.event.absent() {
        assert(err@ =~= old(err)@ + unseen(pend@));
    } else if pend.region.lines == 0 && pend.region.partial == 0 {
        err.append("   up to date");
    } else {
        err.append("   ");
        push_decimal(err, pend.region.lines as u64);
        err.append(" new");
        if pend.region.partial > 0 {
            err.append(" (+");
            push_decimal(err, pend.region.partial as u64);
            err.append("b partial)");
        }
        assert(err@ =~= old(err)@ + unseen(pend@));
    }
}

fn push_status_line(err: &mut String, p: &str, pend: &Pending, width: usize)
    ensures
        final(err)@ == old(err)@ + status_line(p@, pend@, width as nat),
{
    let (at, total) = if pend.event.absent() {
        (0usize, 0usize)
    } else {
        line_stats(pend.bytes.as_slice(), pend.from)
    };
    err.append("  ");
    push_padded(err, short(p), width);
    err.append("  line ");
    push_decimal(err, at as u64);
    err.append("/");
    push_decimal(err, total as u64);
    push_unseen(err, pend);
    if let Some(note) = &pend.note {
        err.append("   ");
        err.append(note.as_str());
    }
    err.append("\n");
    assert(err@ =~= old(err)@ + status_line(p@, pend@, width as nat));
}

/// Per-file dashboard: cursor as a line position, and how many lines are unseen.
pub fn status<F: Fs>(state: &State, fs: &F, session: &str, err: &mut String)
    ensures
        final(err)@ == old(err)@ + status_text(fs, state@, session@),
{
    let ghost s = state@;
    let ghost parts = Seq::new(
        s.files.len(),
        |i: int|
            status_line(s.files[i].path, pending::pending_of(fs, s.files[i]), name_width(s.files)),
    );
    err.append("session: ");
    err.append(session);
    err.append("  (");
    push_wide_decimal(err, state.undo.len() as u128 + state.history.len() as u128);
    err.append(" undo)\n");
    let w: usize = widest_name(&state.files);
    let ghost head = err@;
    let mut i: usize = 0;
    assert(parts.take(0) =~= Seq::empty());
    assert(err@ =~= head + text::concat(parts.take(0)));
    while i < state.files.len()
        invariant
            i <= state.files@.len(),
            s == state@,
            w == name_width(s.files),
            parts == Seq::new(
                s.files.len(),
                |i: int|
                    status_line(
                        s.files[i].path,
                        pending::pending_of(fs, s.files[i]),
                        name_width(s.files),
                    ),
            ),
            err@ == head + text::concat(parts.take(i as int)),
        decreases state.files@.len() - i,
    {
        assert(parts.take(i + 1).drop_last() =~= parts.take(i as int));
        let f = &state.files[i];
        assert(s.files[i as int] == f@);
        let pend = pending(fs, f);
        push_status_line(err, f.path.as_str(), &pend, w);
        assert(err@ =~= head + text::concat(parts.take(i + 1)));
        i += 1;
    }
    assert(parts.take(i as int) =~= parts);
    assert(err@ =~= old(err)@ + status_text(fs, s, session@));
}

fn push_counts(err: &mut String, entries: &Vec<CommitEntry>)
    ensures
        final(err)@ == old(err)@ + counts_of(state::entries_view(entries@)),
{
    let ghost view = state::entries_view(entries@);
    let ghost parts = Seq::new(view.len(), |k: int| count_of(view[k]));
    let mut k: usize = 0;
    assert(parts.take(0) =~= Seq::empty());
    assert(err@ =~= old(err)@ + text::join(parts.take(0), ", "@));
    while k < entries.len()
        invariant
            k <= entries@.len(),
            view == state::entries_view(entries@),
            parts == Seq::new(view.len(), |k: int| count_of(view[k])),
            err@ == old(err)@ + text::join(parts.take(k as int), ", "@),
        decreases entries@.len() - k,
    {
        assert(parts.take(k + 1).drop_last() =~= parts.take(k as int));
        let e = &entries[k];
        assert(view[k as int] == e@);
        if k > 0 {
            err.append(", ");
        }
        err.append(short(e.path.as_str()));
        err.append(": ");
        push_decimal(err, e.lines as u64);
        err.append(" lines");
        assert(err@ =~= old(err)@ + text::join(parts.take(k + 1), ", "@));
        k += 1;
    }
    assert(parts.take(k as int) =~= parts);
}

fn push_padded_or_dash(err: &mut String, t: &Option<String>, width: usize)
    ensures
        final(err)@ == old(err)@ + text::pad_right(or_dash(state::text_of(*t)), width as nat),
{
    match t {
        Some(t) => push_padded(err, t.as_str(), width),
        None => push_padded(err, "-", width),
    }
}

fn push_list_line(err: &mut String, c: &Commit)
    ensures
        final(err)@ == old(err)@ + list_line(c@),
{
    let mut id: String = String::new();
    push_decimal(&mut id, c.id as u64);
    assert(id@ =~= text::decimal(c.id as nat));
    err.append("  #");
    push_padded(err, id.as_str(), 3);
    err.append(" ");
    push_padded_or_dash(err, &c.created_at, 8);
    err.append(" ");
    push_padded_or_dash(err, &c.message, 14);
    err.append(" ");
    push_counts(err, &c.entries);
    err.append("\n");
    assert(err@ =~= old(err)@ + list_line(c@));
}

/// The short names of the files with pending lines, joined.
fn unread_names<F: Fs>(fs: &F, files: &Vec<FileState>) -> (r: Option<String>)
    ensures
        (r is Some) == (unread(fs, state::files_view(files@)).len() > 0),
        r is Some ==> r->0@ == text::join(unread(fs, state::files_view(files@)), ", "@),
{
    let ghost view = state::files_view(files@);
    let mut any: bool = false;
    let mut names: String = String::new();
    let mut i: usize = 0;
    assert(view.take(0) =~= Seq::empty());
    assert(names@ =~= text::join(unread(fs, view.take(0)), ", "@));
    while i < files.len()
        invariant
            i <= files@.len(),
            view == state::files_view(files@),
            any == (unread(fs, view.take(i as int)).len() > 0),
            names@ == text::join(unread(fs, view.take(i as int)), ", "@),
        decreases files@.len() - i,
    {
        assert(view.take(i + 1).drop_last() =~= view.take(i as int));
        assert(view.take(i + 1).last() == files@[i as int]@);
        let ghost listed = unread(fs, view.take(i as int));
        let f = &files[i];
        if pending(fs, f).region.lines > 0 {
            if any {
                names.append(", ");
            }
            names.append(short(f.path.as_str()));
            any = true;
            proof {
                let grown = listed.push(path::short_of(f.path@));
                assert(grown.drop_last() =~= listed);
                assert(names@ =~= text::join(grown, ", "@));
            }
        }
        i += 1;
    }
    assert(view.take(i as int) =~= view);
    if any {
        Some(names)
    } else {
        None
    }
}

/// Lists the commit history (id, time, message, per-file line counts), and the files with
/// pending lines.
pub fn list<F: Fs>(state: &State, fs: &F, session: &str, err: &mut String)
    ensures
        final(err)@ == old(err)@ + list_text(fs, state@, session@),
{
    let ghost s = state@;
    let ghost parts = Seq::new(s.history.len(), |k: int| list_line(s.history[k]));
    err.append("history: ");
    err.append(session);
    err.append("  (");
    push_decimal(err, state.history.len() as u64);
    err.append(" checkpoint(s))\n");
    if state.history.len() == 0 {
        err.append("  (none yet — `commit` to create one)\n");
    }
    let ghost head = err@;
    let mut k: usize = 0;
    assert(parts.take(0) =~= Seq::empty());
    assert(err@ =~= head + text::concat(parts.take(0)));
    while k < state.history.len()
        invariant
            k <= state.history@.len(),
            s == state@,
            parts == Seq::new(s.history.len(), |k: int| list_line(s.history[k])),
            err@ == head + text::concat(parts.take(k as int)),
        decreases state.history@.len() - k,
    {
        assert(parts.take(k + 1).drop_last() =~= parts.take(k as int));
        assert(s.history[k as int] == state.history@[k as int]@);
        push_list_line(err, &state.history[k]);
        assert(err@ =~= head + text::concat(parts.take(k + 1)));
        k += 1;
    }
    assert(parts.take(k as int) =~= parts);
    if let Some(names) = unread_names(fs, &state.files) {
        err.append("uncommitted: ");
        err.append(names.as_str());
        err.append("\n");
    }
    assert(err@ =~= old(err)@ + list_text(fs, s, session@));
}

} // verus!
