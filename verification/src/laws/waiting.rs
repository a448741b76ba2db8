//! Waiting before a commit.

use vstd::prelude::*;
use vstd::utf8::*;

use crate::commands::show;
use crate::commands::wait;
use crate::commands::wait::{Mark, Plan, Step, WaitingView, GIVE_UP};
use crate::cursor;
use crate::cursor::NEWLINE;
use crate::fs;
use crate::fs::Fs;
use crate::laws::observing;
use crate::laws::reading;
use crate::laws::showing;
use crate::pending;
use crate::state::FileView;
use crate::text;
use crate::viewer;

verus! {

/// One look at the files: when, and what they were like.
pub struct Look {
    pub now: u64,
    pub appeared: bool,
    pub marks: Seq<Mark>,
}

/// The wait after a number of looks, and what to do after the last of them.
pub open spec fn waited(plan: Plan, for_line: bool, looks: Seq<Look>) -> (WaitingView, Step)
    decreases looks.len(),
{
    let look = looks.last();
    let before = if looks.len() <= 1 {
        wait::first_wait(for_line, look.now, look.marks)
    } else {
        waited(plan, for_line, looks.drop_last()).0
    };
    wait::polled(plan, before, look.now, look.appeared, look.marks)
}

/// Looks one after the other.
pub open spec fn in_order(looks: Seq<Look>) -> bool {
    forall|i: int, j: int|
        0 <= i <= j < looks.len() ==> (#[trigger] looks[i]).now <= (#[trigger] looks[j]).now
}

/// From look `c` on, the files were as at the last look.
pub open spec fn quiet_from(looks: Seq<Look>, c: int) -> bool {
    forall|k: int| c <= k < looks.len() ==> (#[trigger] looks[k]).marks == looks.last().marks
}

/// No wait goes on for ever: one for a line ends by the time allowed for it, one for
/// quiet by the time after which it is given up.
pub proof fn every_wait_ends(plan: Plan, w: WaitingView, look: Look)
    requires
        wait::polled(plan, w, look.now, look.appeared, look.marks).1 == Step::Wait,
    ensures
        match w {
            WaitingView::Line { since } => look.appeared || look.now < since + plan.at_most,
            WaitingView::Quiet { since, changed, seen } => look.now < since + GIVE_UP,
        },
{
}

/// A line that was asked for has appeared before anything is committed, and it is looked
/// for before quiet is.
pub proof fn nothing_is_committed_before_the_line(plan: Plan, looks: Seq<Look>)
    requires
        looks.len() > 0,
        forall|k: int| 0 <= k < looks.len() ==> !(#[trigger] looks[k]).appeared,
    ensures
        waited(plan, true, looks).0 is Line,
        waited(plan, true, looks).1 != Step::Commit,
    decreases looks.len(),
{
    assert(!looks[looks.len() - 1].appeared);
    if looks.len() > 1 {
        let init = looks.drop_last();
        assert forall|k: int| 0 <= k < init.len() implies !(#[trigger] init[k]).appeared by {
            assert(init[k] == looks[k]);
        }
        nothing_is_committed_before_the_line(plan, init);
    }
}

/// Where the files have to settle, a commit follows a time of at least that length in
/// which every look found them the same.
pub proof fn settled_files_were_quiet(plan: Plan, for_line: bool, looks: Seq<Look>)
    requires
        looks.len() > 0,
        in_order(looks),
        plan.settle is Some,
        waited(plan, for_line, looks).1 == Step::Commit,
    ensures
        exists|c: int|
            0 <= c < looks.len() && quiet_from(looks, c) && (#[trigger] looks[c]).now
                + plan.settle->0 <= looks.last().now,
{
    lemma_quiet(plan, for_line, looks);
    let w = waited(plan, for_line, looks).0;
    let c = choose|c: int|
        0 <= c < looks.len() && quiet_from(looks, c) && (#[trigger] looks[c]).now == w->changed;
    assert(looks[c].now <= looks[looks.len() - 1].now);
}

/// While quiet is waited for, the record is right: since the look at which the files
/// last changed they were as they are.
proof fn lemma_quiet(plan: Plan, for_line: bool, looks: Seq<Look>)
    requires
        looks.len() > 0,
        plan.settle is Some,
    ensures
        waited(plan, for_line, looks).0 is Line ==> waited(plan, for_line, looks).1
            != Step::Commit,
        waited(plan, for_line, looks).0 matches WaitingView::Quiet { since, changed, seen } ==> {
            &&& seen == looks.last().marks
            &&& exists|c: int|
                0 <= c < looks.len() && quiet_from(looks, c) && (#[trigger] looks[c]).now
                    == changed
            &&& waited(plan, for_line, looks).1 == Step::Commit ==> wait::span(
                changed,
                looks.last().now,
            ) >= plan.settle->0
        },
    decreases looks.len(),
{
    let n = looks.len() - 1;
    assert(looks[n] == looks.last());
    assert(quiet_from(looks, n));
    if n > 0 {
        let init = looks.drop_last();
        lemma_quiet(plan, for_line, init);
        let before = waited(plan, for_line, init).0;
        if before is Quiet && init.last().marks == looks.last().marks {
            let c = choose|c: int|
                0 <= c < init.len() && quiet_from(init, c) && (#[trigger] init[c]).now
                    == before->changed;
            assert forall|k: int| c <= k < looks.len() implies (#[trigger] looks[k]).marks
                == looks.last().marks by {
                if k < n {
                    assert(init[k] == looks[k]);
                }
            }
            assert(quiet_from(looks, c));
            assert(init[c] == looks[c]);
        }
    }
}

/// The text `needle` stands at `i` in `b`, not before `from`, within a line that is
/// complete: its end is at `j`.
pub open spec fn stands_at(b: Seq<u8>, from: int, needle: Seq<u8>, i: int, j: int) -> bool {
    &&& from <= i
    &&& i + needle.len() <= j < b.len()
    &&& b[j] == 10u8
    &&& b.subrange(i, i + needle.len()) == needle
    &&& forall|x: int| i <= x < i + needle.len() ==> b[x] != 10u8
}

/// The text stands somewhere behind `from` in a complete line of `b`.
pub open spec fn stands_in(b: Seq<u8>, from: int, needle: Seq<u8>) -> bool {
    exists|i: int, j: int| #[trigger] stands_at(b, from, needle, i, j)
}

/// A file that is there holds the text in a complete line that was not read yet.
pub open spec fn unread_line_holds<F: Fs>(fs: &F, f: FileView, needle: Seq<char>) -> bool {
    fs.stat_of(f.path) is Some && stands_in(
        fs::contents(fs, f.path),
        cursor::read_from(f, fs.stat_of(f.path)) as int,
        encode_utf8(needle),
    )
}

proof fn lemma_lines_step(b: Seq<u8>)
    requires
        b.len() > 0,
    ensures
        ({
            let n = show::first_line_len(b) as int;
            &&& 0 < n <= b.len()
            &&& forall|x: int| 0 <= x < n - 1 ==> b[x] != NEWLINE
            &&& b[n - 1] == NEWLINE || n == b.len()
            &&& viewer::displayed(b).len() == 1 + viewer::displayed(b.skip(n)).len()
            &&& viewer::displayed(b)[0] == viewer::without_newline(b.take(n))
            &&& forall|k: int|
                0 <= k < viewer::displayed(b.skip(n)).len() ==> viewer::displayed(b)[k + 1]
                    == #[trigger] viewer::displayed(b.skip(n))[k]
        }),
{
    showing::first_line_ends_at_first_newline(b);
    let n = show::first_line_len(b) as int;
    let rest = viewer::lines_of(b.skip(n));
    assert(viewer::lines_of(b) == seq![b.take(n)] + rest);
    assert forall|k: int| 0 <= k < rest.len() implies viewer::lines_of(b)[k + 1]
        == #[trigger] rest[k] by {}
    assert(viewer::lines_of(b)[0] == b.take(n));
}

proof fn lemma_line_is_found(b: Seq<u8>, needle: Seq<u8>, i: int, j: int)
    requires
        stands_at(b, 0, needle, i, j),
    ensures
        wait::line_holds(b, needle),
    decreases b.len(),
{
    lemma_lines_step(b);
    let n = show::first_line_len(b) as int;
    let line = viewer::displayed(b)[0];
    if i < n {
        if b[n - 1] != NEWLINE {
            assert(b[j] != NEWLINE);
        }
        if i + needle.len() > n - 1 {
            assert(b[n - 1] != 10u8);
        }
        assert(line =~= b.take(n - 1));
        assert(line.subrange(i, i + needle.len()) =~= b.subrange(i, i + needle.len()));
        assert(wait::holds(line, needle));
    } else {
        let rest = b.skip(n);
        assert(rest.subrange(i - n, i - n + needle.len()) =~= b.subrange(i, i + needle.len()));
        assert forall|x: int| i - n <= x < i - n + needle.len() implies rest[x] != 10u8 by {
            assert(rest[x] == b[x + n]);
        }
        assert(stands_at(rest, 0, needle, i - n, j - n));
        lemma_line_is_found(rest, needle, i - n, j - n);
        let k = choose|k: int|
            0 <= k < viewer::displayed(rest).len() && wait::holds(
                #[trigger] viewer::displayed(rest)[k],
                needle,
            );
        assert(viewer::displayed(b)[k + 1] == viewer::displayed(rest)[k]);
    }
}

proof fn lemma_found_line_stands(b: Seq<u8>, needle: Seq<u8>, k: int)
    requires
        b.len() > 0 ==> b.last() == NEWLINE,
        0 <= k < viewer::displayed(b).len(),
        wait::holds(viewer::displayed(b)[k], needle),
    ensures
        stands_in(b, 0, needle),
    decreases b.len(),
{
    if b.len() == 0 {
        assert(viewer::lines_of(b).len() == 0);
    } else {
        lemma_lines_step(b);
        let n = show::first_line_len(b) as int;
        if k == 0 {
            let line = viewer::displayed(b)[0];
            assert(b[n - 1] == NEWLINE);
            assert(b.take(n).last() == b[n - 1]);
            assert(line =~= b.take(n - 1));
            let i = choose|i: int|
                0 <= i <= line.len() - needle.len() && #[trigger] line.subrange(
                    i,
                    i + needle.len(),
                ) == needle;
            assert(line.subrange(i, i + needle.len()) =~= b.subrange(i, i + needle.len()));
            assert(stands_at(b, 0, needle, i, n - 1));
        } else {
            let rest = b.skip(n);
            if rest.len() > 0 {
                assert(rest.last() == b.last());
            }
            assert(viewer::displayed(b)[k] == viewer::displayed(rest)[k - 1]);
            lemma_found_line_stands(rest, needle, k - 1);
            let (i, j) = choose|i: int, j: int| #[trigger] stands_at(rest, 0, needle, i, j);
            assert(rest.subrange(i, i + needle.len()) =~= b.subrange(i + n, i + n + needle.len()));
            assert forall|x: int| i + n <= x < i + n + needle.len() implies b[x] != 10u8 by {
                assert(rest[x - n] == b[x]);
            }
            assert(stands_at(b, 0, needle, i + n, j + n));
        }
    }
}

/// What is looked at in a file is its unread complete lines, all of them.
proof fn lemma_file_holds<F: Fs>(fs: &F, f: FileView, needle: Seq<char>)
    requires
        reading::fits_in_memory(fs, f.path),
    ensures
        wait::file_holds(fs, f, encode_utf8(needle)) == unread_line_holds(fs, f, needle),
{
    let n = encode_utf8(needle);
    let c = fs::contents(fs, f.path);
    let from = cursor::read_from(f, fs.stat_of(f.path));
    let p = pending::pending_of(fs, f);
    let r = p.region.bytes;
    if fs.stat_of(f.path) is None || c.len() < from {
        observing::nothing_is_pending_of_nothing(fs, f);
        assert(viewer::lines_of(r).len() == 0);
        if stands_in(c, from as int, n) && fs.stat_of(f.path) is Some {
            let (i, j) = choose|i: int, j: int| #[trigger] stands_at(c, from as int, n, i, j);
            assert(false);
        }
    } else {
        observing::pending_reaches_the_last_line_end(fs, f);
        let end = p.region.end;
        if stands_in(c, from as int, n) {
            let (i, j) = choose|i: int, j: int| #[trigger] stands_at(c, from as int, n, i, j);
            assert(j < end);
            assert(r.subrange(i - from, i - from + n.len()) =~= c.subrange(i, i + n.len()));
            assert forall|x: int| i - from <= x < i - from + n.len() implies r[x] != 10u8 by {
                assert(r[x] == c[x + from]);
            }
            assert(stands_at(r, 0, n, i - from, j - from));
            lemma_line_is_found(r, n, i - from, j - from);
        }
        if wait::line_holds(r, n) {
            let k = choose|k: int|
                0 <= k < viewer::displayed(r).len() && wait::holds(
                    #[trigger] viewer::displayed(r)[k],
                    n,
                );
            if r.len() > 0 {
                assert(r.last() == c[end - 1]);
            }
            lemma_found_line_stands(r, n, k);
            let (i, j) = choose|i: int, j: int| #[trigger] stands_at(r, 0, n, i, j);
            assert(r.subrange(i, i + n.len()) =~= c.subrange(i + from, i + from + n.len()));
            assert forall|x: int| i + from <= x < i + from + n.len() implies c[x] != 10u8 by {
                assert(r[x - from] == c[x]);
            }
            assert(stands_at(c, from as int, n, i + from, j + from));
        }
    }
}

/// Whichever of the targeted files the line appears in, the wait for it is over at that
/// look: without a time to settle it is committed, otherwise quiet is waited for from then
/// on; it never times out.
pub proof fn line_in_any_target_ends_the_wait<F: Fs>(
    fs: &F,
    files: Seq<FileView>,
    sel: Seq<int>,
    needle: Seq<char>,
    plan: Plan,
    since: u64,
    now: u64,
    k: int,
)
    requires
        0 <= k < sel.len(),
        reading::fits_in_memory(fs, files[sel[k]].path),
        unread_line_holds(fs, files[sel[k]], needle),
    ensures
        ({
            let r = wait::polled(
                plan,
                WaitingView::Line { since },
                now,
                wait::appeared_in(fs, files, sel, needle),
                wait::marks_of(fs, files, sel),
            );
            &&& r.1 != Step::TimedOut
            &&& r.1 != Step::Unsettled
            &&& plan.settle is None ==> r.1 == Step::Commit
            &&& plan.settle == Some(0u64) ==> r.1 == Step::Commit
            &&& plan.settle is Some && plan.settle->0 > 0 ==> r.1 == Step::Wait && r.0
                == (WaitingView::Quiet {
                since: now,
                changed: now,
                seen: wait::marks_of(fs, files, sel),
            })
        }),
{
    lemma_file_holds(fs, files[sel[k]], needle);
    assert(wait::appeared_in(fs, files, sel, needle));
}

/// Where the line stands in none of the targeted files, nothing is committed: it is still
/// waited for, and the time is up exactly when the time allowed has passed.
pub proof fn without_the_line_the_wait_goes_on<F: Fs>(
    fs: &F,
    files: Seq<FileView>,
    sel: Seq<int>,
    needle: Seq<char>,
    plan: Plan,
    since: u64,
    now: u64,
)
    requires
        forall|k: int|
            0 <= k < sel.len() ==> reading::fits_in_memory(fs, files[#[trigger] sel[k]].path)
                && !unread_line_holds(fs, files[sel[k]], needle),
    ensures
        ({
            let r = wait::polled(
                plan,
                WaitingView::Line { since },
                now,
                wait::appeared_in(fs, files, sel, needle),
                wait::marks_of(fs, files, sel),
            );
            &&& r.0 == WaitingView::Line { since }
            &&& r.1 == Step::TimedOut || r.1 == Step::Wait
            &&& r.1 == Step::TimedOut <==> plan.at_most == 0 || now - since >= plan.at_most
        }),
{
    if wait::appeared_in(fs, files, sel, needle) {
        let k = choose|k: int|
            0 <= k < sel.len() && wait::file_holds(
                fs,
                files[#[trigger] sel[k]],
                crate::memfs::utf8(needle),
            );
        lemma_file_holds(fs, files[sel[k]], needle);
    }
}

/// A wait starts with the line where one is asked for, and otherwise with quiet; time runs
/// from the first look.
pub proof fn first_look_starts_the_clock(now: u64, marks: Seq<Mark>)
    ensures
        wait::first_wait(true, now, marks) == (WaitingView::Line { since: now }),
        wait::first_wait(false, now, marks) == (WaitingView::Quiet {
            since: now,
            changed: now,
            seen: marks,
        }),
{
}

/// A file changed between two looks exactly where its identity or its size is another, or
/// it came or went; a change of any targeted file starts the quiet time anew, and without
/// one it goes on.
pub proof fn any_change_starts_the_quiet_time_anew<F: Fs>(
    before: &F,
    after: &F,
    files: Seq<FileView>,
    sel: Seq<int>,
    plan: Plan,
    since: u64,
    changed: u64,
    now: u64,
    appeared: bool,
)
    requires
        // no file has all of its identity and size zero, as an absent one
        forall|k: int|
            0 <= k < sel.len() ==> {
                let p = files[#[trigger] sel[k]].path;
                &&& before.stat_of(p) is Some ==> before.stat_of(p)->0.ino != 0
                &&& after.stat_of(p) is Some ==> after.stat_of(p)->0.ino != 0
            },
    ensures
        ({
            let r = wait::polled(
                plan,
                WaitingView::Quiet { since, changed, seen: wait::marks_of(before, files, sel) },
                now,
                appeared,
                wait::marks_of(after, files, sel),
            ).0;
            let same = forall|k: int|
                0 <= k < sel.len() ==> before.stat_of(files[#[trigger] sel[k]].path)
                    == after.stat_of(files[sel[k]].path);
            r == (WaitingView::Quiet {
                since,
                changed: if same {
                    changed
                } else {
                    now
                },
                seen: wait::marks_of(after, files, sel),
            })
        }),
{
    let a = wait::marks_of(before, files, sel);
    let b = wait::marks_of(after, files, sel);
    let same = forall|k: int|
        0 <= k < sel.len() ==> before.stat_of(files[#[trigger] sel[k]].path) == after.stat_of(
            files[sel[k]].path,
        );
    if same {
        assert forall|k: int| 0 <= k < sel.len() implies a[k] == b[k] by {
            assert(before.stat_of(files[sel[k]].path) == after.stat_of(files[sel[k]].path));
        }
        assert(a =~= b);
    } else {
        let k = choose|k: int|
            0 <= k < sel.len() && before.stat_of(files[#[trigger] sel[k]].path) != after.stat_of(
                files[sel[k]].path,
            );
        assert(a[k] != b[k]);
    }
}

/// Once the files have been quiet for long enough they are committed, however long it
/// took; before that they are not, and the wait is given up exactly when its time is over.
pub proof fn quiet_is_committed_in_time(
    plan: Plan,
    since: u64,
    changed: u64,
    seen: Seq<Mark>,
    now: u64,
    appeared: bool,
    marks: Seq<Mark>,
)
    requires
        plan.settle is Some,
    ensures
        ({
            let step = wait::polled(
                plan,
                WaitingView::Quiet { since, changed, seen },
                now,
                appeared,
                marks,
            ).1;
            let quiet = if marks == seen && changed <= now {
                now - changed
            } else {
                0
            };
            &&& step == Step::Commit <==> quiet >= plan.settle->0
            &&& step == Step::Unsettled <==> quiet < plan.settle->0 && now - since >= 5_000_000_000
            &&& step == Step::Wait <==> quiet < plan.settle->0 && now - since < 5_000_000_000
        }),
{
}

/// The report on the time that it took names it in milliseconds.
pub proof fn settled_time_is_named(ms: u64, ns: u64)
    requires
        ns < 1_000_000,
        ms * 1_000_000 + ns <= u64::MAX,
    ensures
        wait::settled_text((ms * 1_000_000 + ns) as u64) == "settled after "@ + text::decimal(
            ms as nat,
        ) + "ms\n"@,
{
    assert((ms * 1_000_000 + ns) as u64 / 1_000_000u64 == ms);
}

} // verus!
