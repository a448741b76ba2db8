//! `show_at`: the lines that a past checkpoint recorded.

use vstd::prelude::*;
use vstd::slice::slice_subrange;

use crate::commands::commit;
use crate::commands::commit::push_label;
use crate::commands::show;
use crate::commands::show::{push_content, Report};
use crate::fs;
use crate::fs::{read_or_empty, Fs};
use crate::path;
use crate::path::{path_matches, short};
use crate::state;
use crate::state::{Commit, CommitEntry, CommitView, EntryView, State};
use crate::text;
use crate::text::{parse_u32, push_bytes, push_decimal, str_eq};

verus! {

/// Index of the first checkpoint with an id, from `k` on.
pub open spec fn with_id(history: Seq<CommitView>, id: u32, k: int) -> Option<int>
    decreases history.len() - k,
{
    if k < 0 || k >= history.len() {
        None
    } else if history[k].id == id {
        Some(k)
    } else {
        with_id(history, id, k + 1)
    }
}

/// Index of the first checkpoint with a message, from `k` on.
pub open spec fn with_message(history: Seq<CommitView>, message: Seq<char>, k: int) -> Option<int>
    decreases history.len() - k,
{
    if k < 0 || k >= history.len() {
        None
    } else if history[k].message == Some(message) {
        Some(k)
    } else {
        with_message(history, message, k + 1)
    }
}

/// How far from the end a reference points: `^` and `^1` stand for the latest.
pub open spec fn from_end(at: Seq<char>) -> Option<u32> {
    if at.len() == 0 || at[0] != '^' {
        None
    } else if at.len() == 1 {
        Some(1)
    } else {
        text::as_u32(at.skip(1))
    }
}

/// The checkpoint that a reference stands for: an absolute id, `^N` from the end, or a
/// message.
pub open spec fn referred(history: Seq<CommitView>, at: Seq<char>) -> Option<int> {
    match text::as_u32(at) {
        Some(id) => with_id(history, id, 0),
        None => match from_end(at) {
            Some(n) => if 1 <= n <= history.len() {
                Some(history.len() - n)
            } else {
                None
            },
            None => with_message(history, at, 0),
        },
    }
}

/// The recorded range of a file can still be read: same identity, and no shorter.
pub open spec fn available<F: Fs>(fs: &F, e: EntryView) -> bool {
    &&& fs.stat_of(e.path) matches Some(s) && s.dev == e.dev && s.ino == e.ino && s.size >= e.to
    &&& e.from <= e.to <= fs::contents(fs, e.path).len()
}

/// The recorded range of a file.
pub open spec fn recorded<F: Fs>(fs: &F, e: EntryView) -> Seq<u8> {
    fs::contents(fs, e.path).subrange(e.from as int, e.to as int)
}

/// The path is among the targets of a recall: all, if no name is given.
pub open spec fn wanted(p: Seq<char>, names: Seq<Seq<char>>) -> bool {
    names.len() == 0 || exists|k: int|
        0 <= k < names.len() && path::matches_name(p, #[trigger] names[k])
}

/// What a recall says of a file.
pub open spec fn recalled_err<F: Fs>(fs: &F, c: CommitView, e: EntryView) -> Seq<char> {
    "=== "@ + path::short_of(e.path) + " @ #"@ + text::decimal(c.id as nat) + commit::label(
        c.message,
    ) + ": "@ + if available(fs, e) {
        text::decimal(e.lines as nat) + " line(s) ===\n"@
    } else {
        "unavailable (file rotated/truncated since commit) ===\n"@
    }
}

/// What a recall prints of a file: the recorded range, while it can be read.
pub open spec fn recalled_out<F: Fs>(fs: &F, e: EntryView, prefix: bool) -> Seq<u8> {
    if available(fs, e) {
        show::printed(recorded(fs, e), e.path, prefix)
    } else {
        Seq::empty()
    }
}

/// All that a recall of a checkpoint says.
pub open spec fn all_recalled_err<F: Fs>(fs: &F, c: CommitView, names: Seq<Seq<char>>) -> Seq<char> {
    text::concat(
        Seq::new(
            c.entries.len(),
            |k: int|
                if wanted(c.entries[k].path, names) {
                    recalled_err(fs, c, c.entries[k])
                } else {
                    Seq::empty()
                },
        ),
    )
}

/// All that a recall of a checkpoint prints.
pub open spec fn all_recalled_out<F: Fs>(
    fs: &F,
    c: CommitView,
    names: Seq<Seq<char>>,
    prefix: bool,
) -> Seq<u8> {
    text::concat(
        Seq::new(
            c.entries.len(),
            |k: int|
                if wanted(c.entries[k].path, names) {
                    recalled_out(fs, c.entries[k], prefix)
                } else {
                    Seq::empty()
                },
        ),
    )
}

/// The complaint about a reference that stands for no checkpoint.
pub open spec fn no_checkpoint(at: Seq<char>) -> Seq<char> {
    "no checkpoint: "@ + at
}

/// Finds a checkpoint by numeric id, by its place from the end, or by message.
pub fn find_commit(history: &Vec<Commit>, at: &str) -> (found: Option<usize>)
    ensures
        match referred(state::history_view(history@), at@) {
            Some(k) => found is Some && found->0 == k && 0 <= k < history@.len(),
            None => found is None,
        },
{
    let ghost view = state::history_view(history@);
    let n: usize = history.len();
    if let Some(id) = parse_u32(at) {
        let mut k: usize = 0;
        while k < n
            invariant
                k <= n == history@.len(),
                view == state::history_view(history@),
                text::as_u32(at@) == Some(id),
                with_id(view, id, 0) == with_id(view, id, k as int),
            decreases n - k,
        {
            assert(view[k as int] == history@[k as int]@);
            if history[k].id == id {
                return Some(k);
            }
            k += 1;
        }
        return None;
    }
    let len: usize = at.unicode_len();
    if len > 0 && at.get_char(0) == '^' {
        let back: Option<u32> = if len == 1 {
            Some(1)
        } else {
            let digits: &str = at.substring_char(1, len);
            assert(digits@ =~= at@.skip(1));
            parse_u32(digits)
        };
        if let Some(b) = back {
            return if b >= 1 && b as u64 <= n as u64 {
                Some(n - b as usize)
            } else {
                None
            };
        }
    }
    let mut k: usize = 0;
    while k < n
        invariant
            k <= n == history@.len(),
            view == state::history_view(history@),
            text::as_u32(at@) is None,
            from_end(at@) is None,
            with_message(view, at@, 0) == with_message(view, at@, k as int),
        decreases n - k,
    {
        assert(view[k as int] == history@[k as int]@);
        if let Some(m) = &history[k].message {
            if str_eq(m.as_str(), at) {
                return Some(k);
            }
        }
        k += 1;
    }
    None
}

/// Whether a path is among the targets of a recall.
fn is_wanted(p: &str, names: &[String]) -> (r: bool)
    ensures
        r == wanted(p@, state::names_view(names@)),
{
    let ghost texts = state::names_view(names@);
    if names.len() == 0 {
        return true;
    }
    let mut k: usize = 0;
    while k < names.len()
        invariant
            k <= names@.len(),
            texts == state::names_view(names@),
            forall|j: int| 0 <= j < k ==> !path::matches_name(p@, #[trigger] texts[j]),
        decreases names@.len() - k,
    {
        assert(texts[k as int] == names@[k as int]@);
        if path_matches(p, names[k].as_str()) {
            return true;
        }
        k += 1;
    }
    false
}

/// Re-reads the recorded range of a file, while it can be read.
pub fn recall_range<F: Fs>(fs: &F, e: &CommitEntry) -> (r: Option<Vec<u8>>)
    ensures
        (r is Some) == available(fs, e@),
        r is Some ==> r->0@ == recorded(fs, e@),
{
    let same: bool = match fs.stat(e.path.as_str()) {
        Some(s) => s.dev == e.dev && s.ino == e.ino && s.size >= e.to,
        None => false,
    };
    if !same {
        return None;
    }
    let bytes: Vec<u8> = read_or_empty(fs, e.path.as_str());
    if e.from <= e.to && e.to <= bytes.len() as u64 {
        let mut v: Vec<u8> = Vec::new();
        push_bytes(&mut v, slice_subrange(bytes.as_slice(), e.from as usize, e.to as usize));
        assert(v@ =~= recorded(fs, e@));
        Some(v)
    } else {
        None
    }
}

/// Recalls one file of a checkpoint.
fn recall_entry<F: Fs>(fs: &F, c: &Commit, e: &CommitEntry, prefix: bool) -> (r: Report)
    ensures
        r.err@ == recalled_err(fs, c@, e@),
        r.out@ == recalled_out(fs, e@, prefix),
{
    let mut err: String = String::new();
    let mut out: Vec<u8> = Vec::new();
    err.append("=== ");
    err.append(short(e.path.as_str()));
    err.append(" @ #");
    push_decimal(&mut err, c.id as u64);
    push_label(&mut err, &c.message);
    err.append(": ");
    match recall_range(fs, e) {
        Some(bytes) => {
            push_decimal(&mut err, e.lines as u64);
            err.append(" line(s) ===\n");
            push_content(&mut out, bytes.as_slice(), e.path.as_str(), prefix);
        },
        None => {
            err.append("unavailable (file rotated/truncated since commit) ===\n");
        },
    }
    assert(err@ =~= recalled_err(fs, c@, e@));
    assert(out@ =~= recalled_out(fs, e@, prefix));
    Report { err, out }
}

/// Re-shows the lines a past checkpoint recorded, file by file. An entry that is not a
/// target yields an empty report.
pub fn show_at_reports<F: Fs>(
    state: &State,
    fs: &F,
    at: &str,
    names: &[String],
    prefix: bool,
) -> (r: Result<Vec<Report>, String>)
    ensures
        match referred(state@.history, at@) {
            Some(i) => r is Ok && 0 <= i < state@.history.len() && ({
                let c = state@.history[i];
                let texts = state::names_view(names@);
                r->Ok_0@.len() == c.entries.len() && forall|k: int|
                    0 <= k < c.entries.len() ==> if wanted(c.entries[k].path, texts) {
                        (#[trigger] r->Ok_0@[k]).err@ == recalled_err(fs, c, c.entries[k])
                            && r->Ok_0@[k].out@ == recalled_out(fs, c.entries[k], prefix)
                    } else {
                        r->Ok_0@[k].err@.len() == 0 && r->Ok_0@[k].out@.len() == 0
                    }
            }),
            None => r is Err && r->Err_0@ == no_checkpoint(at@),
        },
{
    let i: usize = match find_commit(&state.history, at) {
        Some(i) => i,
        None => {
            let mut e: String = "no checkpoint: ".to_owned();
            e.append(at);
            return Err(e);
        },
    };
    let c = &state.history[i];
    let ghost view = state@.history[i as int];
    let ghost texts = state::names_view(names@);
    assert(view == c@);
    let mut reports: Vec<Report> = Vec::new();
    let mut k: usize = 0;
    while k < c.entries.len()
        invariant
            k <= c.entries@.len(),
            reports@.len() == k,
            view == c@,
            texts == state::names_view(names@),
            forall|j: int|
                0 <= j < k ==> if wanted(view.entries[j].path, texts) {
                    (#[trigger] reports@[j]).err@ == recalled_err(fs, view, view.entries[j])
                        && reports@[j].out@ == recalled_out(fs, view.entries[j], prefix)
                } else {
                    reports@[j].err@.len() == 0 && reports@[j].out@.len() == 0
                },
        decreases c.entries@.len() - k,
    {
        let e = &c.entries[k];
        assert(view.entries[k as int] == e@);
        if is_wanted(e.path.as_str(), names) {
            reports.push(recall_entry(fs, c, e, prefix));
        } else {
            reports.push(Report { err: String::new(), out: Vec::new() });
        }
        k += 1;
    }
    Ok(reports)
}

/// Re-shows the lines a past checkpoint recorded, by re-reading each file's committed
/// byte range, but only while the file's identity still matches (no content is stored,
/// so a rotated or truncated file's old slice is reported as unavailable).
pub fn show_at<F: Fs>(
    state: &State,
    fs: &F,
    at: &str,
    names: &[String],
    prefix: bool,
    out: &mut Vec<u8>,
    err: &mut String,
) -> (r: Result<(), String>)
    ensures
        match referred(state@.history, at@) {
            Some(i) => r is Ok && 0 <= i < state@.history.len() && final(err)@ == old(err)@
                + all_recalled_err(fs, state@.history[i], state::names_view(names@))
                && final(out)@ == old(out)@ + all_recalled_out(
                fs,
                state@.history[i],
                state::names_view(names@),
                prefix,
            ),
            None => r is Err && r->Err_0@ == no_checkpoint(at@) && final(err)@ == old(err)@
                && final(out)@ == old(out)@,
        },
{
    let reports: Vec<Report> = match show_at_reports(state, fs, at, names, prefix) {
        Ok(reports) => reports,
        Err(e) => return Err(e),
    };
    let ghost c = state@.history[referred(state@.history, at@)->0];
    let ghost texts = state::names_view(names@);
    let ghost errs = Seq::new(
        c.entries.len(),
        |k: int|
            if wanted(c.entries[k].path, texts) {
                recalled_err(fs, c, c.entries[k])
            } else {
                Seq::empty()
            },
    );
    let ghost outs = Seq::new(
        c.entries.len(),
        |k: int|
            if wanted(c.entries[k].path, texts) {
                recalled_out(fs, c.entries[k], prefix)
            } else {
                Seq::empty()
            },
    );
    proof {
        assert forall|k: int| 0 <= k < reports@.len() implies (#[trigger] reports@[k]).err@
            == errs[k] && reports@[k].out@ == outs[k] by {
            if !wanted(c.entries[k].path, texts) {
                assert(reports@[k].err@ =~= Seq::empty());
                assert(reports@[k].out@ =~= Seq::empty());
            }
        }
        assert(errs.take(0) =~= Seq::empty());
        assert(outs.take(0) =~= Seq::empty());
        assert(err@ =~= old(err)@ + text::concat(errs.take(0)));
        assert(out@ =~= old(out)@ + text::concat(outs.take(0)));
    }
    let mut k: usize = 0;
    while k < reports.len()
        invariant
            k <= reports@.len(),
            reports@.len() == errs.len() == outs.len(),
            forall|k: int|
                0 <= k < reports@.len() ==> (#[trigger] reports@[k]).err@ == errs[k]
                    && reports@[k].out@ == outs[k],
            err@ == old(err)@ + text::concat(errs.take(k as int)),
            out@ == old(out)@ + text::concat(outs.take(k as int)),
        decreases reports@.len() - k,
    {
        err.append(reports[k].err.as_str());
        push_bytes(out, reports[k].out.as_slice());
        k += 1;
        proof {
            assert(errs.take(k as int).drop_last() =~= errs.take(k - 1));
            assert(outs.take(k as int).drop_last() =~= outs.take(k - 1));
            assert(err@ =~= old(err)@ + text::concat(errs.take(k as int)));
            assert(out@ =~= old(out)@ + text::concat(outs.take(k as int)));
        }
    }
    assert(errs.take(k as int) =~= errs);
    assert(outs.take(k as int) =~= outs);
    Ok(())
}

} // verus!
