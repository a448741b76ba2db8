//! What the dashboard, the history and the opening of a session say.

use vstd::prelude::*;
use vstd::utf8::*;

use crate::commands::open;
use crate::commands::show;
use crate::commands::status;
use crate::cursor;
use crate::fs;
use crate::fs::Fs;
use crate::laws::lines;
use crate::laws::observing;
use crate::laws::reading;
use crate::laws::showing;
use crate::path;
use crate::pending;
use crate::state::{CommitView, EntryView, FileView, StateView};
use crate::text;

verus! {

/// The lines before a position and those behind it are all lines.
pub proof fn lines_before_and_behind_are_all(b: Seq<u8>, from: int)
    requires
        0 <= from,
    ensures
        observing::line_ends(observing::ahead_of(b, from)) + observing::line_ends(
            observing::behind(b, from),
        ) == observing::line_ends(b),
{
    let x = observing::ahead_of(b, from);
    let y = observing::behind(b, from);
    observing::newlines_are_line_ends(x);
    observing::newlines_are_line_ends(y);
    observing::newlines_are_line_ends(b);
    assert(b =~= x + y);
    lines::newlines_add_up(x, y);
}

/// Of a file that is there, the dashboard says that it is up to date exactly where no byte
/// stands behind the read position; otherwise how many lines end behind it, and how long a
/// partial line is.
pub proof fn status_counts_what_is_unseen<F: Fs>(fs: &F, f: FileView, end: int)
    requires
        fs.stat_of(f.path) is Some,
        reading::fits_in_memory(fs, f.path),
        observing::is_last_line_end(
            fs::contents(fs, f.path),
            cursor::read_from(f, fs.stat_of(f.path)) as int,
            end,
        ),
    ensures
        ({
            let b = fs::contents(fs, f.path);
            let from = cursor::read_from(f, fs.stat_of(f.path)) as int;
            let said = status::unseen(pending::pending_of(fs, f));
            &&& said == "   up to date"@ <==> b.len() <= from
            &&& from < b.len() ==> said == "   "@ + text::decimal(
                observing::line_ends(b.skip(from)),
            ) + " new"@ + (if end < b.len() {
                " (+"@ + text::decimal((b.len() - end) as nat) + "b partial)"@
            } else {
                Seq::empty()
            })
        }),
{
    let b = fs::contents(fs, f.path);
    let from = cursor::read_from(f, fs.stat_of(f.path)) as int;
    let p = pending::pending_of(fs, f);
    let said = status::unseen(p);
    showing::pending_is_what_stands_behind(fs, f, end);
    reveal_strlit("   up to date");
    reveal_strlit("   ");
    if b.len() <= from {
        assert(observing::behind(b, from) =~= Seq::empty());
        observing::newlines_are_line_ends(Seq::empty());
    } else {
        if end > from {
            observing::newlines_are_line_ends(p.region.bytes);
            observing::pending_reaches_the_last_line_end(fs, f);
            assert(p.region.bytes.last() == b[end - 1]);
            assert(p.region.lines > 0);
        }
        let d = text::decimal(p.region.lines as nat);
        crate::laws::recalling::decimal_reads_back(p.region.lines as nat);
        assert(text::is_digit(d[0]));
        assert(said[3] == d[0]);
        assert("   up to date"@[3] == 'u');
    }
}

/// The dashboard line of a file that is there: its name, the number of lines before the
/// read position and of all lines, what is unseen, and the remark. The line position and
/// the unseen lines add up to all lines.
pub proof fn status_states_the_line_position<F: Fs>(fs: &F, f: FileView, width: nat)
    requires
        fs.stat_of(f.path) is Some,
    ensures
        ({
            let b = fs::contents(fs, f.path);
            let from = cursor::read_from(f, fs.stat_of(f.path)) as int;
            let p = pending::pending_of(fs, f);
            &&& status::status_line(f.path, p, width) == "  "@ + text::pad_right(
                path::short_of(f.path),
                width,
            ) + "  line "@ + text::decimal(observing::line_ends(observing::ahead_of(b, from)))
                + "/"@ + text::decimal(observing::line_ends(b)) + status::unseen(p) + (
            match p.note {
                Some(note) => "   "@ + note,
                None => Seq::empty(),
            }) + "\n"@
            &&& observing::line_ends(observing::ahead_of(b, from)) + observing::line_ends(
                observing::behind(b, from),
            ) == observing::line_ends(b)
        }),
{
    let b = fs::contents(fs, f.path);
    let from = cursor::read_from(f, fs.stat_of(f.path)) as int;
    observing::newlines_are_line_ends(observing::ahead_of(b, from));
    observing::newlines_are_line_ends(b);
    lines_before_and_behind_are_all(b, from);
}

/// The dashboard line of a file that is not there: no line, and the remark.
pub proof fn status_of_an_absent_file<F: Fs>(fs: &F, f: FileView, width: nat)
    requires
        fs.stat_of(f.path) is None,
    ensures
        status::status_line(f.path, pending::pending_of(fs, f), width) == "  "@ + text::pad_right(
            path::short_of(f.path),
            width,
        ) + "  line "@ + text::decimal(0) + "/"@ + text::decimal(0) + ("   "@ + (if f.ino == 0 {
            "not present"@
        } else {
            "DISAPPEARED since last seen"@
        })) + "\n"@,
{
    observing::remark_on_what_happened(fs, f);
    let p = pending::pending_of(fs, f);
    assert(status::status_line(f.path, p, width) =~= "  "@ + text::pad_right(
        path::short_of(f.path),
        width,
    ) + "  line "@ + text::decimal(0) + "/"@ + text::decimal(0) + ("   "@ + p.note->0) + "\n"@);
}

/// Right after a session was opened from the start, the dashboard says of each file that
/// all of its lines are new, and that the cursor is before the first.
pub proof fn status_after_open_from_start<F: Fs>(fs: &F, paths: Seq<Seq<char>>, i: int, end: int)
    requires
        0 <= i < paths.len(),
        fs.stat_of(paths[i]) is Some,
        reading::undisturbed(fs, paths[i]),
        observing::line_ends(fs::contents(fs, paths[i])) > 0,
        observing::is_last_line_end(fs::contents(fs, paths[i]), 0, end),
    ensures
        ({
            let b = fs::contents(fs, paths[i]);
            let p = pending::pending_of(fs, open::opened(fs, paths, true).files[i]);
            status::unseen(p) == "   "@ + text::decimal(observing::line_ends(b)) + " new"@ + (
            if end < b.len() {
                " (+"@ + text::decimal((b.len() - end) as nat) + "b partial)"@
            } else {
                Seq::empty()
            })
        }),
{
    let f = open::opened(fs, paths, true).files[i];
    let b = fs::contents(fs, paths[i]);
    observing::newlines_are_line_ends(b);
    assert(b.skip(0) =~= b);
    status_counts_what_is_unseen(fs, f, end);
}

/// The name column is as wide as the longest name, in bytes.
pub proof fn name_column_is_as_wide_as_the_longest(files: Seq<FileView>)
    ensures
        forall|i: int|
            0 <= i < files.len() ==> encode_utf8(
                path::short_of((#[trigger] files[i]).path),
            ).len() <= status::name_width(files),
        files.len() > 0 ==> exists|i: int|
            0 <= i < files.len() && encode_utf8(path::short_of((#[trigger] files[i]).path)).len()
                == status::name_width(files),
        files.len() == 0 ==> status::name_width(files) == 0,
    decreases files.len(),
{
    if files.len() > 0 {
        let init = files.drop_last();
        let n = files.len() - 1;
        name_column_is_as_wide_as_the_longest(init);
        assert forall|i: int| 0 <= i < files.len() implies encode_utf8(
            path::short_of((#[trigger] files[i]).path),
        ).len() <= status::name_width(files) by {
            if i < n {
                assert(init[i] == files[i]);
            }
        }
        if encode_utf8(path::short_of(files[n].path)).len() == status::name_width(files) {
        } else {
            assert(init.len() > 0);
            let i = choose|i: int|
                0 <= i < init.len() && encode_utf8(path::short_of((#[trigger] init[i]).path)).len()
                    == status::name_width(init);
            assert(files[i] == init[i]);
        }
    }
}

/// The dashboard names the session and how many steps can be undone, advances and commits
/// alike, and has a line for each file, in order.
pub proof fn status_has_a_line_for_each_file<F: Fs>(fs: &F, s: StateView, session: Seq<char>)
    ensures
        status::status_text(fs, s, session) == "session: "@ + session + "  ("@ + text::decimal(
            s.undo.len() + s.history.len(),
        ) + " undo)\n"@ + text::concat(
            s.files.map_values(
                |f: FileView|
                    status::status_line(
                        f.path,
                        pending::pending_of(fs, f),
                        status::name_width(s.files),
                    ),
            ),
        ),
{
    assert(s.files.map_values(
        |f: FileView|
            status::status_line(f.path, pending::pending_of(fs, f), status::name_width(s.files)),
    ) =~= Seq::new(
        s.files.len(),
        |i: int|
            status::status_line(
                s.files[i].path,
                pending::pending_of(fs, s.files[i]),
                status::name_width(s.files),
            ),
    ));
}

/// Padding adds blanks on the right, as many as are missing, and takes nothing away.
pub proof fn padding_only_adds_blanks(t: Seq<char>, width: nat)
    ensures
        text::pad_right(t, width).take(t.len() as int) == t,
        forall|i: int|
            t.len() <= i < text::pad_right(t, width).len() ==> text::pad_right(t, width)[i] == ' ',
        text::pad_right(t, width).len() == (if t.len() < width {
            width
        } else {
            t.len()
        }),
{
    assert(text::pad_right(t, width).take(t.len() as int) =~= t);
}

/// One more part comes last.
pub proof fn parts_stand_one_after_the_other(parts: Seq<Seq<char>>, part: Seq<char>, sep: Seq<char>)
    ensures
        text::concat(Seq::<Seq<char>>::empty()) == Seq::<char>::empty(),
        text::concat(parts.push(part)) == text::concat(parts) + part,
        text::join(Seq::empty(), sep) == Seq::<char>::empty(),
        text::join(seq![part], sep) == part,
        parts.len() > 0 ==> text::join(parts.push(part), sep) == text::join(parts, sep) + sep
            + part,
{
    assert(parts.push(part).drop_last() =~= parts);
}

/// The same of bytes.
pub proof fn bytes_stand_one_after_the_other(parts: Seq<Seq<u8>>, part: Seq<u8>)
    ensures
        text::concat(Seq::<Seq<u8>>::empty()) == Seq::<u8>::empty(),
        text::concat(parts.push(part)) == text::concat(parts) + part,
{
    assert(parts.push(part).drop_last() =~= parts);
}

/// The history line of a checkpoint: its id, time and message, a dash for what it has not,
/// and the line count of each file.
pub proof fn list_line_tells_of_the_checkpoint(c: CommitView)
    ensures
        status::list_line(c) == "  #"@ + text::pad_right(text::decimal(c.id as nat), 3) + " "@
            + text::pad_right(
            match c.created_at {
                Some(t) => t,
                None => "-"@,
            },
            8,
        ) + " "@ + text::pad_right(
            match c.message {
                Some(m) => m,
                None => "-"@,
            },
            14,
        ) + " "@ + text::join(
            c.entries.map_values(
                |e: EntryView|
                    path::short_of(e.path) + ": "@ + text::decimal(e.lines as nat) + " lines"@,
            ),
            ", "@,
        ) + "\n"@,
{
    assert(c.entries.map_values(
        |e: EntryView| path::short_of(e.path) + ": "@ + text::decimal(e.lines as nat) + " lines"@,
    ) =~= Seq::new(c.entries.len(), |k: int| status::count_of(c.entries[k])));
}

/// The history names the session and counts the checkpoints, has a line for each, oldest
/// first, and names below it the files with lines that are not committed.
pub proof fn list_has_a_line_for_each_checkpoint<F: Fs>(fs: &F, s: StateView, session: Seq<char>)
    ensures
        status::list_text(fs, s, session) == "history: "@ + session + "  ("@ + text::decimal(
            s.history.len(),
        ) + " checkpoint(s))\n"@ + (if s.history.len() == 0 {
            "  (none yet — `commit` to create one)\n"@
        } else {
            text::concat(s.history.map_values(|c: CommitView| status::list_line(c)))
        }) + (if status::unread(fs, s.files).len() == 0 {
            Seq::empty()
        } else {
            "uncommitted: "@ + text::join(status::unread(fs, s.files), ", "@) + "\n"@
        }),
{
    assert(s.history.map_values(|c: CommitView| status::list_line(c)) =~= Seq::new(
        s.history.len(),
        |k: int| status::list_line(s.history[k]),
    ));
}

/// A file is named as uncommitted exactly where `show` prints something of it.
pub proof fn uncommitted_are_the_files_with_new_lines<F: Fs>(fs: &F, files: Seq<FileView>, f: FileView)
    requires
        reading::fits_in_memory(fs, f.path),
    ensures
        status::unread(fs, Seq::empty()).len() == 0,
        status::unread(fs, files.push(f)) == (if show::shown_out(fs, f, false).len() > 0 {
            status::unread(fs, files).push(path::short_of(f.path))
        } else {
            status::unread(fs, files)
        }),
{
    assert(files.push(f).drop_last() =~= files);
    let p = pending::pending_of(fs, f);
    lines::region_ends_at_line_end(p.bytes, p.from);
    cursor::lemma_complete_len(cursor::rest(p.bytes, p.from));
    cursor::lemma_newlines_bound(p.region.bytes);
}

/// Opening records each file as it is: its identity, and a cursor at its end or at its
/// start; nothing but the path of one that is not there. There is nothing to undo yet.
pub proof fn open_records_each_file<F: Fs>(
    fs: &F,
    paths: Seq<Seq<char>>,
    from_start: bool,
    i: int,
)
    requires
        0 <= i < paths.len(),
    ensures
        ({
            let s = open::opened(fs, paths, from_start);
            let f = s.files[i];
            let st = fs.stat_of(paths[i]);
            &&& s.files.len() == paths.len()
            &&& f.path == paths[i]
            &&& st is None ==> f.dev == 0 && f.ino == 0 && f.cursor == 0
            &&& st is Some ==> f.dev == st->0.dev && f.ino == st->0.ino
            &&& st is Some && from_start ==> f.cursor == 0
            &&& st is Some && !from_start ==> f.cursor == st->0.size
            &&& s.undo.len() == 0 && s.history.len() == 0 && s.next_id == 0
        }),
{
}

/// What opening says of one more file comes last: how many lines it has, and where the
/// cursor is at its start, that they are all pending; or that it is not there yet.
pub proof fn open_tells_of_each_file<F: Fs>(
    fs: &F,
    paths: Seq<Seq<char>>,
    p: Seq<char>,
    from_start: bool,
)
    ensures
        open::opened_text(fs, Seq::empty(), from_start).len() == 0,
        ({
            let n = text::decimal(observing::line_ends(fs::contents(fs, p)));
            open::opened_text(fs, paths.push(p), from_start) == open::opened_text(
                fs,
                paths,
                from_start,
            ) + ("  "@ + path::short_of(p) + "  ("@ + (if fs.stat_of(p) is None {
                "not present yet"@
            } else if from_start {
                n + " lines, "@ + n + " pending"@
            } else {
                n + " lines"@
            }) + ")\n"@)
        }),
{
    observing::newlines_are_line_ends(fs::contents(fs, p));
    let more = paths.push(p);
    assert(Seq::new(more.len(), |i: int| open::opened_line(fs, more[i], from_start)).drop_last()
        =~= Seq::new(paths.len(), |i: int| open::opened_line(fs, paths[i], from_start)));
}

/// The paths that are watched are those of the files, in order.
pub proof fn watched_paths_are_those_of_the_files(files: Seq<FileView>, i: int)
    requires
        0 <= i < files.len(),
    ensures
        open::watched(files).len() == files.len(),
        open::watched(files)[i] == files[i].path,
{
}

} // verus!
