//! `open` and `clear`: starting a session, and starting it over.

use vstd::prelude::*;

use crate::cursor;
use crate::cursor::count_newlines;
use crate::fs;
use crate::fs::{read_or_empty, Fs};
use crate::path;
use crate::path::short;
use crate::state;
use crate::state::{FileState, FileView, State, StateView};
use crate::text;
use crate::text::push_decimal;

verus! {

/// A file as it is first watched: at its end, or at its start where asked for; without an
/// identity where it is not there yet.
pub open spec fn opened_file<F: Fs>(fs: &F, p: Seq<char>, from_start: bool) -> FileView {
    match fs.stat_of(p) {
        Some(s) => FileView {
            path: p,
            dev: s.dev,
            ino: s.ino,
            cursor: if from_start {
                0
            } else {
                s.size
            },
        },
        None => FileView { path: p, dev: 0, ino: 0, cursor: 0 },
    }
}

/// What is said of a file when it is first watched.
pub open spec fn opened_line<F: Fs>(fs: &F, p: Seq<char>, from_start: bool) -> Seq<char> {
    let n = text::decimal(cursor::newlines(fs::contents(fs, p)));
    "  "@ + path::short_of(p) + "  ("@ + (if fs.stat_of(p) is None {
        "not present yet"@
    } else if from_start {
        n + " lines, "@ + n + " pending"@
    } else {
        n + " lines"@
    }) + ")\n"@
}

/// A fresh session over the paths.
pub open spec fn opened<F: Fs>(fs: &F, paths: Seq<Seq<char>>, from_start: bool) -> StateView {
    StateView {
        files: Seq::new(paths.len(), |i: int| opened_file(fs, paths[i], from_start)),
        undo: Seq::empty(),
        next_id: 0,
        history: Seq::empty(),
    }
}

/// What is said of a fresh session over the paths.
pub open spec fn opened_text<F: Fs>(fs: &F, paths: Seq<Seq<char>>, from_start: bool) -> Seq<char> {
    text::concat(Seq::new(paths.len(), |i: int| opened_line(fs, paths[i], from_start)))
}

/// The paths that a session watches.
pub open spec fn watched(files: Seq<FileView>) -> Seq<Seq<char>> {
    Seq::new(files.len(), |i: int| files[i].path)
}

/// Starts watching a file.
fn open_file<F: Fs>(fs: &F, path: &str, from_start: bool, err: &mut String) -> (f: FileState)
    ensures
        f@ == opened_file(fs, path@, from_start),
        final(err)@ == old(err)@ + opened_line(fs, path@, from_start),
{
    err.append("  ");
    err.append(short(path));
    err.append("  (");
    let f = match fs.stat(path) {
        Some(s) => {
            let bytes: Vec<u8> = read_or_empty(fs, path);
            let len: usize = bytes.len();
            assert(bytes@.subrange(0, len as int) =~= bytes@);
            let n: usize = count_newlines(bytes.as_slice(), 0, len);
            push_decimal(err, n as u64);
            if from_start {
                err.append(" lines, ");
                push_decimal(err, n as u64);
                err.append(" pending");
            } else {
                err.append(" lines");
            }
            let cursor: u64 = if from_start {
                0
            } else {
                s.size
            };
            FileState { path: path.to_owned(), dev: s.dev, ino: s.ino, cursor }
        },
        None => {
            err.append("not present yet");
            FileState { path: path.to_owned(), dev: 0, ino: 0, cursor: 0 }
        },
    };
    err.append(")\n");
    assert(err@ =~= old(err)@ + opened_line(fs, path@, from_start));
    f
}

/// Builds a fresh session over `paths`. Cursors sit at end-of-file (only future lines
/// show) unless `from_start`. Per-file notes go to `err`.
pub fn open<F: Fs>(fs: &F, paths: &[String], from_start: bool, err: &mut String) -> (s: State)
    ensures
        s@ == opened(fs, state::names_view(paths@), from_start),
        final(err)@ == old(err)@ + opened_text(fs, state::names_view(paths@), from_start),
{
    let ghost all = state::names_view(paths@);
    let ghost goal = opened(fs, all, from_start).files;
    let ghost parts = Seq::new(all.len(), |i: int| opened_line(fs, all[i], from_start));
    let mut files: Vec<FileState> = Vec::new();
    let mut i: usize = 0;
    assert(parts.take(0) =~= Seq::empty());
    assert(err@ =~= old(err)@ + text::concat(parts.take(0)));
    while i < paths.len()
        invariant
            i <= paths@.len(),
            files@.len() == i,
            all == state::names_view(paths@),
            goal == opened(fs, all, from_start).files,
            parts == Seq::new(all.len(), |i: int| opened_line(fs, all[i], from_start)),
            forall|k: int| 0 <= k < i ==> (#[trigger] files@[k])@ == goal[k],
            err@ == old(err)@ + text::concat(parts.take(i as int)),
        decreases paths@.len() - i,
    {
        assert(parts.take(i + 1).drop_last() =~= parts.take(i as int));
        let f = open_file(fs, paths[i].as_str(), from_start, err);
        files.push(f);
        assert(err@ =~= old(err)@ + text::concat(parts.take(i + 1)));
        i += 1;
    }
    assert(parts.take(i as int) =~= parts);
    let s = State { files, undo: Vec::new(), next_id: 0, history: Vec::new() };
    assert(s@ =~= opened(fs, all, from_start));
    s
}

/// Empties the session in place: puts the cursors at end-of-file and drops the history.
/// The same files stay watched.
pub fn clear<F: Fs>(state: &mut State, fs: &F, err: &mut String)
    ensures
        final(state)@ == opened(fs, watched(old(state)@.files), false),
        final(err)@ == old(err)@ + opened_text(fs, watched(old(state)@.files), false),
{
    let mut paths: Vec<String> = Vec::new();
    let mut i: usize = 0;
    while i < state.files.len()
        invariant
            i <= state.files@.len(),
            paths@.len() == i,
            forall|k: int| 0 <= k < i ==> (#[trigger] paths@[k])@ == state.files@[k].path@,
        decreases state.files@.len() - i,
    {
        paths.push(state.files[i].path.clone());
        i += 1;
    }
    assert(state::names_view(paths@) =~= watched(state@.files));
    *state = open(fs, paths.as_slice(), false, err);
}

} // verus!
