//! Waiting for a line, and for the files to be quiet, before a commit.
//!
//! The caller looks at the files from time to time; [`wait_step`] says what to do next.
//! Times are nanoseconds on a clock of the caller's.

use vstd::prelude::*;
use vstd::slice::slice_subrange;

use crate::commands::select;
use crate::commands::select::select;
use crate::fs::Fs;
use crate::memfs;
use crate::pending;
use crate::pending::pending;
use crate::state;
use crate::state::{FileView, State};
use crate::text;
use crate::text::{bytes_eq, push_decimal};
use crate::viewer;
use crate::viewer::display_lines;

verus! {

/// Waiting for quiet is given up after this long.
pub const GIVE_UP: u64 = 5_000_000_000;

pub const MILLISECOND: u64 = 1_000_000;

/// What shows that a file changed: its identity and size. All zero for an absent file.
#[derive(PartialEq, Eq, Structural, Clone, Copy, Debug)]
pub struct Mark {
    pub dev: u64,
    pub ino: u64,
    pub size: u64,
}

/// How long to wait: for the line, and for how long the files have to be quiet.
#[derive(PartialEq, Eq, Structural, Clone, Copy, Debug)]
pub struct Plan {
    pub at_most: u64,
    pub settle: Option<u64>,
}

/// What is being waited for: a line, since a time; or quiet, since a time, where the
/// files last changed at `changed` and have been as `seen` from then on.
pub enum Waiting {
    Line { since: u64 },
    Quiet { since: u64, changed: u64, seen: Vec<Mark> },
}

#[verifier::ext_equal]
pub enum WaitingView {
    Line { since: u64 },
    Quiet { since: u64, changed: u64, seen: Seq<Mark> },
}

impl View for Waiting {
    type V = WaitingView;

    open spec fn view(&self) -> WaitingView {
        match *self {
            Waiting::Line { since } => WaitingView::Line { since },
            Waiting::Quiet { since, changed, seen } => WaitingView::Quiet {
                since,
                changed,
                seen: seen@,
            },
        }
    }
}

/// What to do next.
#[derive(PartialEq, Eq, Structural, Clone, Copy, Debug)]
pub enum Step {
    /// Look again later.
    Wait,
    /// What was waited for is there.
    Commit,
    /// The line did not appear in time.
    TimedOut,
    /// The files did not become quiet in time.
    Unsettled,
}

/// The time from `since` to `now`.
pub open spec fn span(since: u64, now: u64) -> int {
    if now >= since {
        now - since
    } else {
        0
    }
}

/// For how long the files have to be quiet.
pub open spec fn quiet_time(plan: Plan) -> u64 {
    match plan.settle {
        Some(d) => d,
        None => 0,
    }
}

/// What is waited for at first: the line where one is asked for, else quiet.
pub open spec fn first_wait(for_line: bool, now: u64, marks: Seq<Mark>) -> WaitingView {
    if for_line {
        WaitingView::Line { since: now }
    } else {
        WaitingView::Quiet { since: now, changed: now, seen: marks }
    }
}

/// The wait after a look at the files, and what to do.
pub open spec fn polled(
    plan: Plan,
    w: WaitingView,
    now: u64,
    appeared: bool,
    marks: Seq<Mark>,
) -> (WaitingView, Step) {
    match w {
        WaitingView::Line { since } => if appeared {
            match plan.settle {
                None => (w, Step::Commit),
                Some(d) => (
                    WaitingView::Quiet { since: now, changed: now, seen: marks },
                    if d == 0 {
                        Step::Commit
                    } else {
                        Step::Wait
                    },
                ),
            }
        } else if span(since, now) >= plan.at_most {
            (w, Step::TimedOut)
        } else {
            (w, Step::Wait)
        },
        WaitingView::Quiet { since, changed, seen } => {
            let changed = if marks == seen {
                changed
            } else {
                now
            };
            (
                WaitingView::Quiet { since, changed, seen: marks },
                if span(changed, now) >= quiet_time(plan) {
                    Step::Commit
                } else if span(since, now) >= GIVE_UP {
                    Step::Unsettled
                } else {
                    Step::Wait
                },
            )
        },
    }
}

/// Whether `needle` stands somewhere in `b`.
pub open spec fn holds(b: Seq<u8>, needle: Seq<u8>) -> bool {
    exists|i: int|
        0 <= i <= b.len() - needle.len() && #[trigger] b.subrange(i, i + needle.len()) == needle
}

/// Whether a line of `b` holds `needle`.
pub open spec fn line_holds(b: Seq<u8>, needle: Seq<u8>) -> bool {
    exists|k: int|
        0 <= k < viewer::displayed(b).len() && holds(#[trigger] viewer::displayed(b)[k], needle)
}

/// Whether a pending complete line of a file holds `needle`.
pub open spec fn file_holds<F: Fs>(fs: &F, f: FileView, needle: Seq<u8>) -> bool {
    line_holds(pending::pending_of(fs, f).region.bytes, needle)
}

/// Whether a pending complete line of a targeted file holds the text.
pub open spec fn appeared_in<F: Fs>(
    fs: &F,
    files: Seq<FileView>,
    sel: Seq<int>,
    needle: Seq<char>,
) -> bool {
    exists|k: int|
        0 <= k < sel.len() && file_holds(fs, files[#[trigger] sel[k]], memfs::utf8(needle))
}

/// The mark of a file.
pub open spec fn mark_of<F: Fs>(fs: &F, f: FileView) -> Mark {
    match fs.stat_of(f.path) {
        Some(st) => Mark { dev: st.dev, ino: st.ino, size: st.size },
        None => Mark { dev: 0, ino: 0, size: 0 },
    }
}

/// The marks of the targeted files.
pub open spec fn marks_of<F: Fs>(fs: &F, files: Seq<FileView>, sel: Seq<int>) -> Seq<Mark> {
    Seq::new(sel.len(), |k: int| mark_of(fs, files[sel[k]]))
}

fn span_of(since: u64, now: u64) -> (r: u64)
    ensures
        r == span(since, now),
{
    if now >= since {
        now - since
    } else {
        0
    }
}

fn marks_eq(a: &Vec<Mark>, b: &Vec<Mark>) -> (eq: bool)
    ensures
        eq == (a@ == b@),
{
    if a.len() != b.len() {
        return false;
    }
    let mut i: usize = 0;
    while i < a.len()
        invariant
            i <= a@.len() == b@.len(),
            forall|k: int| 0 <= k < i ==> a@[k] == b@[k],
        decreases a@.len() - i,
    {
        if a[i] != b[i] {
            assert(a@[i as int] != b@[i as int]);
            return false;
        }
        i += 1;
    }
    assert(a@ =~= b@);
    true
}

/// Starts to wait, at `now`, for a line or else for quiet.
pub fn start_wait(for_line: bool, now: u64, marks: Vec<Mark>) -> (w: Waiting)
    ensures
        w@ == first_wait(for_line, now, marks@),
{
    if for_line {
        Waiting::Line { since: now }
    } else {
        Waiting::Quiet { since: now, changed: now, seen: marks }
    }
}

/// Takes a look at the files into account: whether the line appeared, and their marks.
pub fn poll(plan: Plan, w: Waiting, now: u64, appeared: bool, marks: Vec<Mark>) -> (r: (
    Waiting,
    Step,
))
    ensures
        (r.0@, r.1) == polled(plan, w@, now, appeared, marks@),
{
    match w {
        Waiting::Line { since } => {
            if appeared {
                match plan.settle {
                    None => (Waiting::Line { since }, Step::Commit),
                    Some(d) => {
                        let step: Step = if d == 0 {
                            Step::Commit
                        } else {
                            Step::Wait
                        };
                        (Waiting::Quiet { since: now, changed: now, seen: marks }, step)
                    },
                }
            } else if span_of(since, now) >= plan.at_most {
                (Waiting::Line { since }, Step::TimedOut)
            } else {
                (Waiting::Line { since }, Step::Wait)
            }
        },
        Waiting::Quiet { since, changed, seen } => {
            let changed: u64 = if marks_eq(&marks, &seen) {
                changed
            } else {
                now
            };
            let quiet: u64 = match plan.settle {
                Some(d) => d,
                None => 0,
            };
            let step: Step = if span_of(changed, now) >= quiet {
                Step::Commit
            } else if span_of(since, now) >= GIVE_UP {
                Step::Unsettled
            } else {
                Step::Wait
            };
            (Waiting::Quiet { since, changed, seen: marks }, step)
        },
    }
}

fn bytes_hold(b: &[u8], needle: &[u8]) -> (found: bool)
    ensures
        found == holds(b@, needle@),
{
    if needle.len() > b.len() {
        return false;
    }
    let last: usize = b.len() - needle.len();
    let mut i: usize = 0;
    loop
        invariant
            i <= last,
            last == b@.len() - needle@.len(),
            b@.len() <= usize::MAX,
            forall|k: int|
                0 <= k < i ==> #[trigger] b@.subrange(k, k + needle@.len()) != needle@,
        decreases last - i,
    {
        let ghost part = b@.subrange(i as int, i + needle@.len());
        if bytes_eq(slice_subrange(b, i, i + needle.len()), needle) {
            assert(part == needle@);
            return true;
        }
        assert(part != needle@);
        if i == last {
            return false;
        }
        i += 1;
    }
}

/// Whether a line of `b` holds `needle`.
fn some_line_holds(b: &[u8], needle: &[u8]) -> (found: bool)
    ensures
        found == line_holds(b@, needle@),
{
    let lines: Vec<Vec<u8>> = display_lines(b);
    let mut k: usize = 0;
    while k < lines.len()
        invariant
            k <= lines@.len() == viewer::displayed(b@).len(),
            forall|j: int|
                0 <= j < lines@.len() ==> (#[trigger] lines@[j])@ == viewer::displayed(b@)[j],
            forall|j: int| 0 <= j < k ==> !holds(#[trigger] viewer::displayed(b@)[j], needle@),
        decreases lines@.len() - k,
    {
        assert(lines@[k as int]@ == viewer::displayed(b@)[k as int]);
        if bytes_hold(lines[k].as_slice(), needle) {
            return true;
        }
        k += 1;
    }
    false
}

/// Whether a pending complete line of a targeted file holds `needle`.
fn appeared<F: Fs>(state: &State, fs: &F, sel: &Vec<usize>, needle: &str) -> (found: bool)
    requires
        forall|k: int| 0 <= k < sel@.len() ==> #[trigger] sel@[k] < state.files@.len(),
    ensures
        found == appeared_in(fs, state@.files, select::indices(sel@), needle@),
{
    let bytes = needle.as_bytes();
    let ghost targets = select::indices(sel@);
    let mut k: usize = 0;
    while k < sel.len()
        invariant
            k <= sel@.len(),
            targets == select::indices(sel@),
            bytes@ == memfs::utf8(needle@),
            forall|k: int| 0 <= k < sel@.len() ==> #[trigger] sel@[k] < state.files@.len(),
            forall|j: int|
                0 <= j < k ==> !file_holds(
                    fs,
                    state@.files[#[trigger] targets[j]],
                    memfs::utf8(needle@),
                ),
        decreases sel@.len() - k,
    {
        let f = &state.files[sel[k]];
        assert(state@.files[targets[k as int]] == f@);
        let p = pending(fs, f);
        if some_line_holds(p.region.bytes.as_slice(), bytes) {
            return true;
        }
        k += 1;
    }
    false
}

fn marks<F: Fs>(state: &State, fs: &F, sel: &Vec<usize>) -> (marks: Vec<Mark>)
    requires
        forall|k: int| 0 <= k < sel@.len() ==> #[trigger] sel@[k] < state.files@.len(),
    ensures
        marks@ == marks_of(fs, state@.files, select::indices(sel@)),
{
    let ghost targets = select::indices(sel@);
    let mut marks: Vec<Mark> = Vec::new();
    let mut k: usize = 0;
    while k < sel.len()
        invariant
            k <= sel@.len(),
            targets == select::indices(sel@),
            marks@.len() == k,
            forall|k: int| 0 <= k < sel@.len() ==> #[trigger] sel@[k] < state.files@.len(),
            forall|j: int|
                0 <= j < k ==> #[trigger] marks@[j] == mark_of(fs, state@.files[targets[j]]),
        decreases sel@.len() - k,
    {
        let f = &state.files[sel[k]];
        assert(state@.files[targets[k as int]] == f@);
        let mark: Mark = match fs.stat(f.path.as_str()) {
            Some(st) => Mark { dev: st.dev, ino: st.ino, size: st.size },
            None => Mark { dev: 0, ino: 0, size: 0 },
        };
        marks.push(mark);
        k += 1;
    }
    assert(marks@ =~= marks_of(fs, state@.files, targets));
    marks
}

/// Looks at the targeted files and says what to do next. `w` is what was waited for so
/// far, none at the first look. The session is only read.
pub fn wait_step<F: Fs>(
    state: &State,
    fs: &F,
    names: &[String],
    needle: &Option<String>,
    plan: Plan,
    w: Option<Waiting>,
    now: u64,
) -> (r: Result<(Waiting, Step), String>)
    ensures
        match select::selection(state@.files, state::names_view(names@)) {
            Ok(sel) => {
                let seen = marks_of(fs, state@.files, sel);
                let there = match state::text_of(*needle) {
                    Some(text) => appeared_in(fs, state@.files, sel, text),
                    None => false,
                };
                let before = match w {
                    Some(w) => w@,
                    None => first_wait(needle is Some, now, seen),
                };
                r is Ok && (r->Ok_0.0@, r->Ok_0.1) == polled(plan, before, now, there, seen)
            },
            Err(name) => r is Err && r->Err_0@ == select::not_in_session(name),
        },
{
    let sel: Vec<usize> = match select(state, names) {
        Ok(sel) => sel,
        Err(e) => return Err(e),
    };
    proof {
        assert forall|k: int| 0 <= k < sel@.len() implies #[trigger] sel@[k] < state.files@.len() by {
            assert(select::indices(sel@)[k] == sel@[k]);
        }
    }
    let there: bool = match needle {
        Some(text) => appeared(state, fs, &sel, text.as_str()),
        None => false,
    };
    let before: Waiting = match w {
        Some(w) => w,
        None => {
            let first: Vec<Mark> = marks(state, fs, &sel);
            start_wait(needle.is_some(), now, first)
        },
    };
    let seen: Vec<Mark> = marks(state, fs, &sel);
    Ok(poll(plan, before, now, there, seen))
}

/// How long it took for the files to be quiet, in words.
pub open spec fn settled_text(waited: u64) -> Seq<char> {
    "settled after "@ + text::decimal((waited / MILLISECOND) as nat) + "ms\n"@
}

/// Says how long it took for the files to be quiet.
pub fn report_settled(waited: u64, err: &mut String)
    ensures
        final(err)@ == old(err)@ + settled_text(waited),
{
    err.append("settled after ");
    push_decimal(err, waited / MILLISECOND);
    err.append("ms\n");
    assert(err@ =~= old(err)@ + settled_text(waited));
}

} // verus!
