//! `show`: the new lines since each cursor.

use vstd::prelude::*;
use vstd::slice::slice_subrange;

use crate::commands::select;
use crate::commands::select::select;
use crate::cursor::NEWLINE;
use crate::fs::Fs;
use crate::memfs;
use crate::path;
use crate::path::short;
use crate::pending;
use crate::pending::{pending, Pending, PendingView};
use crate::state;
use crate::state::{FileState, FileView, State};
use crate::text;
use crate::text::{push_bytes, push_decimal};

verus! {

/// Length of the first line of `b`, its newline included.
pub open spec fn first_line_len(b: Seq<u8>) -> nat
    decreases b.len(),
{
    if b.len() == 0 {
        0
    } else if b[0] == NEWLINE {
        1
    } else {
        1 + first_line_len(b.drop_first())
    }
}

/// `b` with `tag` before each of its lines.
pub open spec fn tagged(b: Seq<u8>, tag: Seq<u8>) -> Seq<u8>
    decreases b.len(),
{
    if b.len() == 0 {
        Seq::empty()
    } else {
        let n = first_line_len(b);
        if 0 < n <= b.len() {
            tag + b.take(n as int) + tagged(b.skip(n as int), tag)
        } else {
            Seq::empty()
        }
    }
}

proof fn lemma_first_line_len(b: Seq<u8>)
    requires
        b.len() > 0,
    ensures
        0 < first_line_len(b) <= b.len(),
    decreases b.len(),
{
    if b[0] != NEWLINE {
        if b.len() > 1 {
            lemma_first_line_len(b.drop_first());
        } else {
            assert(first_line_len(b.drop_first()) == 0);
        }
    }
}

/// Where the line that starts at `start` ends.
pub fn line_end(b: &[u8], start: usize) -> (end: usize)
    requires
        start < b@.len(),
    ensures
        start < end <= b@.len(),
        end == start + first_line_len(b@.skip(start as int)),
{
    let ghost line = b@.skip(start as int);
    proof {
        lemma_first_line_len(line);
        assert(line.skip(0) =~= line);
    }
    let mut i: usize = start;
    while i < b.len()
        invariant
            start <= i <= b@.len(),
            line == b@.skip(start as int),
            first_line_len(line) == (i - start) + first_line_len(line.skip(i - start)),
        decreases b@.len() - i,
    {
        let ghost tail = line.skip(i - start);
        assert(tail[0] == b@[i as int]);
        assert(tail.drop_first() =~= line.skip(i - start + 1));
        if b[i] == NEWLINE {
            return i + 1;
        }
        i += 1;
    }
    assert(first_line_len(line.skip(i - start)) == 0);
    i
}

/// The tag of a path, in bytes.
pub open spec fn tag_of(p: Seq<char>) -> Seq<u8> {
    memfs::utf8(path::short_of(p) + ": "@)
}

/// Log content as it is printed: as it is, or with the file name before each line.
pub open spec fn printed(b: Seq<u8>, p: Seq<char>, prefix: bool) -> Seq<u8> {
    if prefix {
        tagged(b, tag_of(p))
    } else {
        b
    }
}

/// The header of a file: how many lines are new, how long a trailing partial line is,
/// and the remark on what happened to the file.
pub open spec fn header(p: Seq<char>, pend: PendingView) -> Seq<char> {
    "=== "@ + path::short_of(p) + ": "@ + text::decimal(pend.region.lines as nat)
        + " new line(s)"@ + (if pend.region.partial > 0 {
        ", +"@ + text::decimal(pend.region.partial as nat) + "b partial"@
    } else {
        Seq::empty()
    }) + " ===\n"@ + (match pend.note {
        Some(note) => "    "@ + note + "\n"@,
        None => Seq::empty(),
    })
}

/// What `show` says of a file.
pub open spec fn shown_err<F: Fs>(fs: &F, f: FileView) -> Seq<char> {
    header(f.path, pending::pending_of(fs, f))
}

/// What `show` prints of a file: its new complete lines.
pub open spec fn shown_out<F: Fs>(fs: &F, f: FileView, prefix: bool) -> Seq<u8> {
    printed(pending::pending_of(fs, f).region.bytes, f.path, prefix)
}

/// What a command has to say of one file, and the log content that it prints after it.
pub struct Report {
    pub err: String,
    pub out: Vec<u8>,
}

/// Prints log content.
pub fn push_content(out: &mut Vec<u8>, b: &[u8], p: &str, prefix: bool)
    ensures
        final(out)@ == old(out)@ + printed(b@, p@, prefix),
{
    if !prefix {
        push_bytes(out, b);
        return;
    }
    let mut tag: String = short(p).to_owned();
    tag.append(": ");
    let ghost t = tag_of(p@);
    let mut i: usize = 0;
    assert(b@.skip(0) =~= b@);
    assert(out@ + tagged(b@.skip(0), t) =~= old(out)@ + tagged(b@, t));
    while i < b.len()
        invariant
            i <= b@.len(),
            tag@ == path::short_of(p@) + ": "@,
            t == tag_of(p@),
            out@ + tagged(b@.skip(i as int), t) == old(out)@ + tagged(b@, t),
        decreases b@.len() - i,
    {
        let ghost before = out@;
        let ghost line = b@.skip(i as int);
        let end: usize = line_end(b, i);
        push_bytes(out, tag.as_str().as_bytes());
        push_bytes(out, slice_subrange(b, i, end));
        proof {
            assert(line.take(end - i) =~= b@.subrange(i as int, end as int));
            assert(line.skip(end - i) =~= b@.skip(end as int));
            assert(out@ + tagged(b@.skip(end as int), t) =~= before + tagged(line, t));
        }
        i = end;
    }
    assert(b@.skip(i as int) =~= Seq::empty());
    assert(out@ =~= old(out)@ + tagged(b@, t));
}

/// The header of a file.
pub fn push_header(err: &mut String, p: &str, pend: &Pending)
    ensures
        final(err)@ == old(err)@ + header(p@, pend@),
{
    err.append("=== ");
    err.append(short(p));
    err.append(": ");
    push_decimal(err, pend.region.lines as u64);
    err.append(" new line(s)");
    if pend.region.partial > 0 {
        err.append(", +");
        push_decimal(err, pend.region.partial as u64);
        err.append("b partial");
    }
    err.append(" ===\n");
    if let Some(note) = &pend.note {
        err.append("    ");
        err.append(note.as_str());
        err.append("\n");
    }
    assert(err@ =~= old(err)@ + header(p@, pend@));
}

/// What is new in one file.
fn show_file<F: Fs>(fs: &F, f: &FileState, prefix: bool) -> (r: Report)
    ensures
        r.err@ == shown_err(fs, f@),
        r.out@ == shown_out(fs, f@, prefix),
{
    let pend = pending(fs, f);
    let mut err: String = String::new();
    push_header(&mut err, f.path.as_str(), &pend);
    let mut out: Vec<u8> = Vec::new();
    push_content(&mut out, pend.region.bytes.as_slice(), f.path.as_str(), prefix);
    assert(err@ =~= shown_err(fs, f@));
    assert(out@ =~= shown_out(fs, f@, prefix));
    Report { err, out }
}

/// What is new in each targeted file, file by file.
pub fn show_reports<F: Fs>(state: &State, fs: &F, names: &[String], prefix: bool) -> (r: Result<
    Vec<Report>,
    String,
>)
    ensures
        match select::selection(state@.files, state::names_view(names@)) {
            Ok(sel) => r is Ok && r->Ok_0@.len() == sel.len() && forall|k: int|
                0 <= k < sel.len() ==> (#[trigger] r->Ok_0@[k]).err@ == shown_err(
                    fs,
                    state@.files[sel[k]],
                ) && r->Ok_0@[k].out@ == shown_out(fs, state@.files[sel[k]], prefix),
            Err(name) => r is Err && r->Err_0@ == select::not_in_session(name),
        },
{
    let sel: Vec<usize> = match select(state, names) {
        Ok(sel) => sel,
        Err(e) => return Err(e),
    };
    let ghost targets = select::indices(sel@);
    let mut reports: Vec<Report> = Vec::new();
    let mut k: usize = 0;
    while k < sel.len()
        invariant
            k <= sel@.len(),
            reports@.len() == k,
            targets == select::indices(sel@),
            forall|k: int| 0 <= k < targets.len() ==> 0 <= #[trigger] targets[k] < state.files@.len(),
            forall|j: int|
                0 <= j < k ==> (#[trigger] reports@[j]).err@ == shown_err(
                    fs,
                    state@.files[targets[j]],
                ) && reports@[j].out@ == shown_out(fs, state@.files[targets[j]], prefix),
        decreases sel@.len() - k,
    {
        assert(targets[k as int] == sel@[k as int]);
        let i: usize = sel[k];
        assert(state@.files[i as int] == state.files@[i as int]@);
        reports.push(show_file(fs, &state.files[i], prefix));
        k += 1;
    }
    Ok(reports)
}

/// All that `show` says.
pub open spec fn all_shown_err<F: Fs>(fs: &F, files: Seq<FileView>, sel: Seq<int>) -> Seq<char> {
    text::concat(Seq::new(sel.len(), |k: int| shown_err(fs, files[sel[k]])))
}

/// All that `show` prints.
pub open spec fn all_shown_out<F: Fs>(
    fs: &F,
    files: Seq<FileView>,
    sel: Seq<int>,
    prefix: bool,
) -> Seq<u8> {
    text::concat(Seq::new(sel.len(), |k: int| shown_out(fs, files[sel[k]], prefix)))
}

/// Prints the new lines since each cursor. Read-only: never mutates the session.
pub fn show<F: Fs>(
    state: &State,
    fs: &F,
    names: &[String],
    prefix: bool,
    out: &mut Vec<u8>,
    err: &mut String,
) -> (r: Result<(), String>)
    ensures
        match select::selection(state@.files, state::names_view(names@)) {
            Ok(sel) => r is Ok && final(err)@ == old(err)@ + all_shown_err(fs, state@.files, sel)
                && final(out)@ == old(out)@ + all_shown_out(fs, state@.files, sel, prefix),
            Err(name) => r is Err && r->Err_0@ == select::not_in_session(name) && final(err)@
                == old(err)@ && final(out)@ == old(out)@,
        },
{
    let reports: Vec<Report> = match show_reports(state, fs, names, prefix) {
        Ok(reports) => reports,
        Err(e) => return Err(e),
    };
    let ghost sel = select::selection(state@.files, state::names_view(names@))->Ok_0;
    let ghost errs = Seq::new(sel.len(), |k: int| shown_err(fs, state@.files[sel[k]]));
    let ghost outs = Seq::new(sel.len(), |k: int| shown_out(fs, state@.files[sel[k]], prefix));
    let mut k: usize = 0;
    assert(errs.take(0) =~= Seq::empty());
    assert(outs.take(0) =~= Seq::empty());
    assert(err@ =~= old(err)@ + text::concat(errs.take(0)));
    assert(out@ =~= old(out)@ + text::concat(outs.take(0)));
    while k < reports.len()
        invariant
            k <= reports@.len(),
            reports@.len() == errs.len() == outs.len(),
            forall|k: int|
                0 <= k < reports@.len() ==> (#[trigger] reports@[k]).err@ == errs[k]
                    && reports@[k].out@ == outs[k],
            err@ == old(err)@ + text::concat(errs.take(k as int)),
            out@ == old(out)@ + text::concat(outs.take(k as int)),
        decreases reports@.len() - k,
    {
        err.append(reports[k].err.as_str());
        push_bytes(out, reports[k].out.as_slice());
        k += 1;
        proof {
            assert(errs.take(k as int).drop_last() =~= errs.take(k - 1));
            assert(outs.take(k as int).drop_last() =~= outs.take(k - 1));
            assert(err@ =~= old(err)@ + text::concat(errs.take(k as int)));
            assert(out@ =~= old(out)@ + text::concat(outs.take(k as int)));
        }
    }
    assert(errs.take(k as int) =~= errs);
    assert(outs.take(k as int) =~= outs);
    Ok(())
}

} // verus!
