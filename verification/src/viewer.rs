//! What a read-only viewer over a session displays.

use vstd::prelude::*;
use vstd::slice::slice_subrange;

use crate::commands::recall;
use crate::commands::recall::recall_range;
use crate::commands::show;
use crate::commands::show::line_end;
use crate::commands::squash;
use crate::commands::squash::find_entry;
use crate::cursor::{Event, NEWLINE};
use crate::fs::Fs;
use crate::pending;
use crate::pending::pending;
use crate::state;
use crate::state::{Commit, CommitView, State, StateView};
use crate::text;
use crate::text::{push_bytes, push_decimal};

verus! {

/// Which slice of a file is shown: the live pending lines, or one past checkpoint.
#[derive(PartialEq, Eq, Structural, Clone, Copy, Debug)]
pub enum Snapshot {
    Uncommitted,
    Checkpoint(u32),
}

/// The note on an event.
pub open spec fn note_on(ev: Event) -> Option<Seq<char>> {
    match ev {
        Event::Same | Event::Appeared => None,
        Event::Missing => Some("not present"@),
        Event::Disappeared => Some("disappeared since last seen"@),
        Event::Truncated => Some("⚠ truncated (shrank) — reading from start"@),
        Event::Rotated => Some(
            "⚠ identity changed (rotated/replaced) — reading the new file from start"@,
        ),
    }
}

/// The bytes of a selection, and the note on them.
pub open spec fn slice_of<F: Fs>(fs: &F, s: StateView, file_ix: int, snapshot: Snapshot) -> (
    Seq<u8>,
    Option<Seq<char>>,
) {
    if file_ix < 0 || file_ix >= s.files.len() {
        (Seq::empty(), None)
    } else {
        let f = s.files[file_ix];
        match snapshot {
            Snapshot::Uncommitted => {
                let p = pending::pending_of(fs, f);
                (p.region.bytes, note_on(p.event))
            },
            Snapshot::Checkpoint(id) => match entry_of_checkpoint(s, id, f.path) {
                None => (Seq::empty(), Some("not part of this checkpoint"@)),
                Some(e) => if recall::available(fs, e) {
                    (recall::recorded(fs, e), None)
                } else {
                    (
                        Seq::empty(),
                        Some("unavailable (file rotated/truncated since commit)"@),
                    )
                },
            },
        }
    }
}

/// What a checkpoint recorded of a path.
pub open spec fn entry_of_checkpoint(s: StateView, id: u32, p: Seq<char>) -> Option<
    state::EntryView,
> {
    match recall::with_id(s.history, id, 0) {
        Some(k) => match squash::entry_at(s.history[k].entries, p, 0) {
            Some(j) => Some(s.history[k].entries[j]),
            None => None,
        },
        None => None,
    }
}

/// A line without the newline at its end.
pub open spec fn without_newline(line: Seq<u8>) -> Seq<u8> {
    if line.len() > 0 && line.last() == NEWLINE {
        line.drop_last()
    } else {
        line
    }
}

/// The lines of `b`, each with its newline; the last one may have none.
pub open spec fn lines_of(b: Seq<u8>) -> Seq<Seq<u8>>
    decreases b.len(),
{
    let n = show::first_line_len(b) as int;
    if 0 < n <= b.len() {
        seq![b.take(n)] + lines_of(b.skip(n))
    } else {
        Seq::empty()
    }
}

/// The lines of `b` as they are displayed.
pub open spec fn displayed(b: Seq<u8>) -> Seq<Seq<u8>> {
    Seq::new(lines_of(b).len(), |k: int| without_newline(lines_of(b)[k]))
}

/// How a checkpoint is labelled: id, time, message.
pub open spec fn checkpoint_label(c: CommitView) -> Seq<char> {
    "#"@ + text::decimal(c.id as nat) + "  "@ + or_nothing(c.created_at) + "  "@ + or_nothing(
        c.message,
    )
}

pub open spec fn or_nothing(t: Option<Seq<char>>) -> Seq<char> {
    match t {
        Some(t) => t,
        None => Seq::empty(),
    }
}

/// What stands in place of the lines: an error, or where there is no line, the note on the
/// slice or that nothing is there.
pub open spec fn message_of(
    error: Option<Seq<char>>,
    note: Option<Seq<char>>,
    lines: nat,
) -> Option<Seq<char>> {
    if error is Some {
        error
    } else if lines > 0 {
        None
    } else if note is Some {
        note
    } else {
        Some("up to date — nothing here"@)
    }
}

/// A human note for an identity event.
pub fn note_for(ev: Event) -> (note: Option<String>)
    ensures
        state::text_of(note) == note_on(ev),
{
    match ev {
        Event::Same | Event::Appeared => None,
        Event::Missing => Some("not present".to_owned()),
        Event::Disappeared => Some("disappeared since last seen".to_owned()),
        Event::Truncated => Some("⚠ truncated (shrank) — reading from start".to_owned()),
        Event::Rotated => Some(
            "⚠ identity changed (rotated/replaced) — reading the new file from start".to_owned(),
        ),
    }
}

fn find_id(history: &Vec<Commit>, id: u32) -> (at: Option<usize>)
    ensures
        at matches Some(k) ==> k < history@.len() && recall::with_id(
            state::history_view(history@),
            id,
            0,
        ) == Some(k as int),
        at is None ==> recall::with_id(state::history_view(history@), id, 0) is None,
{
    let ghost view = state::history_view(history@);
    let mut k: usize = 0;
    while k < history.len()
        invariant
            k <= history@.len(),
            view == state::history_view(history@),
            recall::with_id(view, id, 0) == recall::with_id(view, id, k as int),
        decreases history@.len() - k,
    {
        assert(view[k as int] == history@[k as int]@);
        if history[k].id == id {
            return Some(k);
        }
        k += 1;
    }
    None
}

/// The raw bytes, and an optional note, for a selected file and snapshot.
pub fn slice_bytes<F: Fs>(state: &State, fs: &F, file_ix: usize, snapshot: Snapshot) -> (r: (
    Vec<u8>,
    Option<String>,
))
    ensures
        (r.0@, state::text_of(r.1)) == slice_of(fs, state@, file_ix as int, snapshot),
{
    if file_ix >= state.files.len() {
        return (Vec::new(), None);
    }
    let file = &state.files[file_ix];
    assert(state@.files[file_ix as int] == file@);
    match snapshot {
        // The live pending slice: exactly what `show` would print.
        Snapshot::Uncommitted => {
            let p = pending(fs, file);
            let note: Option<String> = note_for(p.event);
            (p.region.bytes, note)
        },
        // A checkpoint's committed byte range, as `show_at` re-reads it.
        Snapshot::Checkpoint(id) => {
            if let Some(k) = find_id(&state.history, id) {
                let c = &state.history[k];
                assert(state@.history[k as int] == c@);
                if let Some(j) = find_entry(&c.entries, file.path.as_str()) {
                    assert(c@.entries[j as int] == c.entries@[j as int]@);
                    return match recall_range(fs, &c.entries[j]) {
                        Some(bytes) => (bytes, None),
                        None => (
                            Vec::new(),
                            Some("unavailable (file rotated/truncated since commit)".to_owned()),
                        ),
                    };
                }
            }
            (Vec::new(), Some("not part of this checkpoint".to_owned()))
        },
    }
}

/// The lines of `b` as they are displayed, without their newlines.
pub fn display_lines(b: &[u8]) -> (lines: Vec<Vec<u8>>)
    ensures
        lines@.len() == displayed(b@).len(),
        forall|k: int| 0 <= k < lines@.len() ==> (#[trigger] lines@[k])@ == displayed(b@)[k],
{
    let ghost all = lines_of(b@);
    let mut lines: Vec<Vec<u8>> = Vec::new();
    let mut i: usize = 0;
    assert(b@.skip(0) =~= b@);
    assert(all.skip(0) =~= all);
    while i < b.len()
        invariant
            i <= b@.len(),
            all == lines_of(b@),
            lines@.len() <= all.len(),
            all.skip(lines@.len() as int) == lines_of(b@.skip(i as int)),
            forall|k: int|
                0 <= k < lines@.len() ==> (#[trigger] lines@[k])@ == without_newline(all[k]),
        decreases b@.len() - i,
    {
        let end: usize = line_end(b, i);
        let ghost rest = b@.skip(i as int);
        let ghost n = lines@.len() as int;
        let stop: usize = if b[end - 1] == NEWLINE {
            end - 1
        } else {
            end
        };
        let mut line: Vec<u8> = Vec::new();
        push_bytes(&mut line, slice_subrange(b, i, stop));
        proof {
            assert(rest.take(end - i) =~= b@.subrange(i as int, end as int));
            assert(rest.skip(end - i) =~= b@.skip(end as int));
            assert(lines_of(rest)[0] == rest.take(end - i));
            assert(lines_of(rest) == seq![rest.take(end - i)] + lines_of(rest.skip(end - i)));
            assert(all.len() - n == lines_of(rest).len());
            assert(all.skip(n)[0] == all[n]);
            assert(all.skip(n + 1) =~= all.skip(n).skip(1));
            assert(lines_of(rest).skip(1) =~= lines_of(b@.skip(end as int)));
            assert(line@ =~= without_newline(rest.take(end - i)));
        }
        lines.push(line);
        i = end;
    }
    proof {
        assert(b@.skip(i as int) =~= Seq::empty());
        assert(lines_of(b@.skip(i as int)) =~= Seq::empty());
        assert(all.skip(lines@.len() as int).len() == 0);
    }
    lines
}

/// The selected file after the session was reloaded: the first one, where the selected one
/// is gone.
pub fn reselect(selected: usize, files: usize) -> (r: usize)
    ensures
        r == (if selected >= files {
            0
        } else {
            selected
        }),
{
    if selected >= files {
        0
    } else {
        selected
    }
}

/// What is displayed in place of the lines, if they are not.
pub fn placeholder(error: &Option<String>, note: &Option<String>, lines: usize) -> (message: Option<
    String,
>)
    ensures
        state::text_of(message) == message_of(
            state::text_of(*error),
            state::text_of(*note),
            lines as nat,
        ),
{
    if let Some(e) = error {
        return Some(e.clone());
    }
    if lines > 0 {
        return None;
    }
    match note {
        Some(n) => Some(n.clone()),
        None => Some("up to date — nothing here".to_owned()),
    }
}

/// The note that is displayed above the lines, if there are any.
pub fn banner(note: &Option<String>, lines: usize) -> (shown: Option<String>)
    ensures
        state::text_of(shown) == (if lines > 0 {
            state::text_of(*note)
        } else {
            None
        }),
{
    match note {
        Some(n) => if lines > 0 {
            Some(n.clone())
        } else {
            None
        },
        None => None,
    }
}

fn push_or_nothing(s: &mut String, t: &Option<String>)
    ensures
        final(s)@ == old(s)@ + or_nothing(state::text_of(*t)),
{
    if let Some(t) = t {
        s.append(t.as_str());
    }
    assert(s@ =~= old(s)@ + or_nothing(state::text_of(*t)));
}

/// Id and label of each checkpoint, newest first.
pub fn checkpoint_labels(state: &State) -> (labels: Vec<(u32, String)>)
    ensures
        labels@.len() == state@.history.len(),
        forall|k: int|
            0 <= k < labels@.len() ==> ({
                let c = state@.history[labels@.len() - 1 - k];
                (#[trigger] labels@[k]).0 == c.id && labels@[k].1@ == checkpoint_label(c)
            }),
{
    let n: usize = state.history.len();
    let mut labels: Vec<(u32, String)> = Vec::new();
    let mut k: usize = 0;
    while k < n
        invariant
            k <= n == state.history@.len(),
            labels@.len() == k,
            forall|j: int|
                0 <= j < k ==> ({
                    let c = state@.history[n - 1 - j];
                    (#[trigger] labels@[j]).0 == c.id && labels@[j].1@ == checkpoint_label(c)
                }),
        decreases n - k,
    {
        let c = &state.history[n - 1 - k];
        assert(state@.history[n - 1 - k] == c@);
        let mut label: String = "#".to_owned();
        push_decimal(&mut label, c.id as u64);
        label.append("  ");
        push_or_nothing(&mut label, &c.created_at);
        label.append("  ");
        push_or_nothing(&mut label, &c.message);
        assert(label@ =~= checkpoint_label(c@));
        labels.push((c.id, label));
        k += 1;
    }
    labels
}

} // verus!
