//! Recalling what a checkpoint recorded.

use vstd::prelude::*;

use crate::commands::commit;
use crate::commands::moving;
use crate::commands::recall;
use crate::commands::show;
use crate::complete;
use crate::cursor;
use crate::fs;
use crate::fs::Fs;
use crate::laws::history;
use crate::laws::lines;
use crate::laws::reading;
use crate::laws::stepping;
use crate::path;
use crate::pending;
use crate::state::{CommitView, EntryView, FileView, StateView};
use crate::text;

verus! {

/// The file at `p` is the same one later on, and at most has grown.
pub open spec fn only_grew<F: Fs>(fs: &F, later: &F, p: Seq<char>) -> bool {
    &&& fs.stat_of(p) is Some
    &&& later.stat_of(p) is Some
    &&& later.stat_of(p)->0.dev == fs.stat_of(p)->0.dev
    &&& later.stat_of(p)->0.ino == fs.stat_of(p)->0.ino
    &&& fs::contents(fs, p).is_prefix_of(fs::contents(later, p))
}

/// What was committed of a file is given back, byte for byte, as long as the file keeps
/// its identity and at most grows.
pub proof fn recall_gives_back_committed_lines<F: Fs>(
    fs: &F,
    later: &F,
    f: FileView,
    prefix: bool,
)
    requires
        reading::undisturbed(fs, f.path),
        reading::undisturbed(later, f.path),
        only_grew(fs, later, f.path),
    ensures
        ({
            let p = pending::pending_of(fs, f);
            let e = moving::entry_of(f, p);
            &&& recall::available(later, e)
            &&& recall::recorded(later, e) == p.region.bytes
            &&& recall::recalled_out(later, e, prefix) == show::shown_out(fs, f, prefix)
        }),
{
    let p = pending::pending_of(fs, f);
    let e = moving::entry_of(f, p);
    lines::region_splits_file(p.bytes, p.from);
    let b = fs::contents(fs, f.path);
    let c = fs::contents(later, f.path);
    assert(b =~= c.take(b.len() as int));
    assert(c.subrange(e.from as int, e.to as int) =~= b.subrange(e.from as int, e.to as int));
}

/// A recorded range is refused, not misread, once the file has another identity or is
/// shorter than the range.
pub proof fn recall_is_refused_after_rotation_or_truncation<F: Fs>(fs: &F, e: EntryView)
    requires
        fs.stat_of(e.path) matches Some(s) ==> s.dev != e.dev || s.ino != e.ino || s.size < e.to,
    ensures
        !recall::available(fs, e),
        forall|prefix: bool| #[trigger] recall::recalled_out(fs, e, prefix).len() == 0,
{
}

/// What a commit would record of a file that has no new line is nothing to print.
proof fn lemma_unmoved_prints_nothing<F: Fs>(fs: &F, f: FileView, prefix: bool)
    requires
        pending::pending_of(fs, f).event.is_absent() || !moving::moves(
            f,
            pending::pending_of(fs, f),
        ),
        reading::fits_in_memory(fs, f.path),
    ensures
        show::shown_out(fs, f, prefix).len() == 0,
{
    let p = pending::pending_of(fs, f);
    let new = cursor::new_lines(p.bytes, p.from);
    if p.event.is_absent() {
        assert(cursor::rest(p.bytes, p.from) =~= Seq::empty());
        assert(new =~= Seq::empty());
    } else {
        lines::region_ends_at_line_end(p.bytes, p.from);
        cursor::lemma_newlines_bound(new);
        cursor::lemma_complete_len(cursor::rest(p.bytes, p.from));
        assert(new.len() == 0);
    }
    assert(p.region.bytes =~= Seq::empty());
}

proof fn lemma_concat_push<A>(parts: Seq<Seq<A>>, part: Seq<A>)
    ensures
        text::concat(parts.push(part)) == text::concat(parts) + part,
{
    assert(parts.push(part).drop_last() =~= parts);
}

/// What a recall of the entries prints, all of them wanted.
pub open spec fn entries_out<F: Fs>(fs: &F, entries: Seq<EntryView>, prefix: bool) -> Seq<u8> {
    text::concat(Seq::new(entries.len(), |k: int| recall::recalled_out(fs, entries[k], prefix)))
}

proof fn lemma_recall_run<F: Fs>(fs: &F, files: Seq<FileView>, sel: Seq<int>, prefix: bool)
    requires
        stepping::in_range(files, sel),
        forall|a: int, b: int| 0 <= a < b < sel.len() ==> #[trigger] sel[a] != #[trigger] sel[b],
        forall|i: int|
            0 <= i < files.len() ==> reading::undisturbed(fs, (#[trigger] files[i]).path)
                && reading::fits_in_memory(fs, files[i].path),
    ensures
        entries_out(fs, moving::read_files(fs, files, sel, ""@).entries, prefix)
            == show::all_shown_out(fs, files, sel, prefix),
    decreases sel.len(),
{
    if sel.len() == 0 {
        assert(Seq::new(
            0,
            |k: int|
                recall::recalled_out(
                    fs,
                    moving::read_files(fs, files, sel, ""@).entries[k],
                    prefix,
                ),
        ) =~= Seq::empty());
        assert(Seq::new(sel.len(), |k: int| show::shown_out(fs, files[sel[k]], prefix))
            =~= Seq::empty());
    } else {
        let init = sel.drop_last();
        let i = sel[sel.len() - 1];
        assert(i == sel.last());
        assert forall|k: int| 0 <= k < init.len() implies 0 <= #[trigger] init[k] < files.len()
            && init[k] == sel[k] by {}
        assert forall|a: int, b: int| 0 <= a < b < init.len() implies #[trigger] init[a]
            != #[trigger] init[b] by {
            assert(init[a] == sel[a] && init[b] == sel[b]);
        }
        lemma_recall_run(fs, files, init, prefix);
        assert(!init.contains(i)) by {
            if init.contains(i) {
                let k = choose|k: int| 0 <= k < init.len() && init[k] == i;
                assert(sel[k] == i);
            }
        }
        reading::reading_keeps_other_files(fs, files, init, ""@, i);
        let r0 = moving::read_files(fs, files, init, ""@);
        let r = moving::read_files(fs, files, sel, ""@);
        let f = files[i];
        assert(r0.files[i] == f);
        let p = pending::pending_of(fs, f);
        let shown0 = Seq::new(init.len(), |k: int| show::shown_out(fs, files[init[k]], prefix));
        let shown = Seq::new(sel.len(), |k: int| show::shown_out(fs, files[sel[k]], prefix));
        assert(shown =~= shown0.push(show::shown_out(fs, f, prefix)));
        lemma_concat_push(shown0, show::shown_out(fs, f, prefix));
        if !p.event.is_absent() && moving::moves(f, p) {
            let e = moving::entry_of(f, p);
            assert(fs::contents(fs, f.path).is_prefix_of(fs::contents(fs, f.path)));
            recall_gives_back_committed_lines(fs, fs, f, prefix);
            let out0 = Seq::new(
                r0.entries.len(),
                |k: int| recall::recalled_out(fs, r0.entries[k], prefix),
            );
            let out = Seq::new(
                r.entries.len(),
                |k: int| recall::recalled_out(fs, r.entries[k], prefix),
            );
            assert(out =~= out0.push(recall::recalled_out(fs, e, prefix)));
            lemma_concat_push(out0, recall::recalled_out(fs, e, prefix));
        } else {
            lemma_unmoved_prints_nothing(fs, f, prefix);
            assert(r.entries == r0.entries);
            assert(text::concat(shown) =~= text::concat(shown0));
        }
    }
}

/// A checkpoint, recalled, prints exactly what `show` printed before it was committed.
pub proof fn recall_prints_what_show_printed<F: Fs>(
    fs: &F,
    s: StateView,
    sel: Seq<int>,
    message: Option<Seq<char>>,
    created_at: Option<Seq<char>>,
    prefix: bool,
)
    requires
        stepping::in_range(s.files, sel),
        forall|a: int, b: int| 0 <= a < b < sel.len() ==> #[trigger] sel[a] != #[trigger] sel[b],
        forall|i: int|
            0 <= i < s.files.len() ==> reading::undisturbed(fs, (#[trigger] s.files[i]).path)
                && reading::fits_in_memory(fs, s.files[i].path),
    ensures
        recall::all_recalled_out(
            fs,
            commit::checkpoint(fs, s, sel, message, created_at),
            Seq::empty(),
            prefix,
        ) == show::all_shown_out(fs, s.files, sel, prefix),
{
    let c = commit::checkpoint(fs, s, sel, message, created_at);
    lemma_recall_run(fs, s.files, sel, prefix);
    assert(Seq::new(
        c.entries.len(),
        |k: int|
            if recall::wanted(c.entries[k].path, Seq::empty()) {
                recall::recalled_out(fs, c.entries[k], prefix)
            } else {
                Seq::empty()
            },
    ) =~= Seq::new(c.entries.len(), |k: int| recall::recalled_out(fs, c.entries[k], prefix)));
}

/// A number written in decimal reads back as itself.
pub proof fn decimal_reads_back(n: nat)
    ensures
        text::is_number(text::decimal(n)),
        text::digits_value(text::decimal(n)) == n,
        n <= u32::MAX ==> text::as_u32(text::decimal(n)) == Some(n as u32),
{
    lemma_decimal(n);
    let d = text::decimal(n);
    assert(text::is_digit(d[0]));
    assert(text::unsigned_part(d) == d);
}

proof fn lemma_decimal(n: nat)
    ensures
        text::is_number(text::decimal(n)),
        text::digits_value(text::decimal(n)) == n,
    decreases n,
{
    let d = text::decimal(n);
    if n < 10 {
        assert(d.drop_last() =~= Seq::empty());
        assert(text::digits_value(d.drop_last()) == 0);
        assert(d.last() == text::digit(n));
    } else {
        lemma_decimal(n / 10);
        assert(d.drop_last() =~= text::decimal(n / 10));
        assert(d.last() == text::digit(n % 10));
    }
}

proof fn lemma_with_id(h: Seq<CommitView>, id: u32, k: int, j: int)
    requires
        0 <= j <= k < h.len(),
        h[k].id == id,
        forall|i: int| j <= i < k ==> (#[trigger] h[i]).id != id,
    ensures
        recall::with_id(h, id, j) == Some(k),
    decreases k - j,
{
    if j < k {
        assert(h[j].id != id);
        lemma_with_id(h, id, k, j + 1);
    }
}

/// Every checkpoint of a well-formed session is found by its id.
pub proof fn checkpoint_is_found_by_id(s: StateView, k: int)
    requires
        history::well_formed(s),
        0 <= k < s.history.len(),
    ensures
        recall::referred(s.history, text::decimal(s.history[k].id as nat)) == Some(k),
{
    decimal_reads_back(s.history[k].id as nat);
    lemma_with_id(s.history, s.history[k].id, k, 0);
}

/// The checkpoint that a commit recorded is found by the id that the commit reported, and
/// by `^`.
pub proof fn commit_is_found_by_its_id<F: Fs>(
    fs: &F,
    s: StateView,
    sel: Seq<int>,
    message: Option<Seq<char>>,
    created_at: Option<Seq<char>>,
)
    requires
        history::well_formed(s),
        s.next_id < u32::MAX,
        stepping::in_range(s.files, sel),
        stepping::changed(fs, s.files, sel).len() > 0,
        forall|i: int|
            0 <= i < s.files.len() ==> reading::fits_in_memory(fs, (#[trigger] s.files[i]).path),
    ensures
        ({
            let after = commit::committed(fs, s, sel, message, created_at).history;
            let c = commit::checkpoint(fs, s, sel, message, created_at);
            &&& after.len() > 0
            &&& after.last() == c
            &&& recall::referred(after, text::decimal(commit::fresh_id(s) as nat)) == Some(
                after.len() - 1,
            )
            &&& recall::referred(after, "^"@) == Some(after.len() - 1)
        }),
{
    stepping::lemma_run(fs, s.files, sel);
    history::commit_keeps_well_formed(fs, s, sel, message, created_at);
    let after = commit::committed(fs, s, sel, message, created_at);
    let c = commit::checkpoint(fs, s, sel, message, created_at);
    assert(after.history == commit::newest(s.history.push(c)));
    assert(after.history.last() == c);
    assert(after.history[after.history.len() - 1] == c);
    checkpoint_is_found_by_id(after, after.history.len() - 1);
    caret_points_at_latest(after.history);
}

/// `^` stands for the latest checkpoint.
pub proof fn caret_points_at_latest(h: Seq<CommitView>)
    requires
        h.len() > 0,
    ensures
        recall::referred(h, "^"@) == Some(h.len() - 1),
{
    reveal_strlit("^");
    let at = "^"@;
    assert(text::unsigned_part(at) == at);
    assert(!text::is_digit(at[0]));
}

/// `^N` stands for the checkpoint `N` from the end.
pub proof fn caret_counts_from_end(h: Seq<CommitView>, n: nat)
    requires
        1 <= n <= h.len(),
        n <= u32::MAX,
    ensures
        recall::referred(h, "^"@ + text::decimal(n)) == Some(h.len() - n),
{
    reveal_strlit("^");
    let at = "^"@ + text::decimal(n);
    decimal_reads_back(n);
    assert(at[0] == '^');
    assert(text::unsigned_part(at) == at);
    assert(!text::is_digit(at[0]));
    assert(at.skip(1) =~= text::decimal(n));
}

/// A message that reads neither as a number nor as `^N` finds the oldest checkpoint that
/// has it.
pub proof fn checkpoint_is_found_by_message(h: Seq<CommitView>, message: Seq<char>, k: int)
    requires
        0 <= k < h.len(),
        h[k].message == Some(message),
        forall|i: int| 0 <= i < k ==> (#[trigger] h[i]).message != Some(message),
        text::as_u32(message) is None,
        recall::from_end(message) is None,
    ensures
        recall::referred(h, message) == Some(k),
{
    lemma_with_message(h, message, k, 0);
}

proof fn lemma_with_message(h: Seq<CommitView>, message: Seq<char>, k: int, j: int)
    requires
        0 <= j <= k < h.len(),
        h[k].message == Some(message),
        forall|i: int| j <= i < k ==> (#[trigger] h[i]).message != Some(message),
    ensures
        recall::with_message(h, message, j) == Some(k),
    decreases k - j,
{
    if j < k {
        assert(h[j].message != Some(message));
        lemma_with_message(h, message, k, j + 1);
    }
}

/// Every reference that is suggested by its place from the end stands for its checkpoint,
/// and so does every one that is suggested by id.
pub proof fn suggestions_are_accepted(s: StateView, i: int)
    requires
        history::well_formed(s),
        0 <= i < s.history.len() <= u32::MAX,
    ensures
        recall::referred(s.history, complete::end_reference(s.history, i)) == Some(i),
        s.history[i].message is None ==> recall::referred(
            s.history,
            complete::own_reference(s.history[i]),
        ) == Some(i),
{
    caret_counts_from_end(s.history, (s.history.len() - i) as nat);
    checkpoint_is_found_by_id(s, i);
}

/// A recall without names shows every file of the checkpoint. With names it shows of a
/// file what it shows without, if any of the names stands for it, and otherwise nothing.
pub proof fn any_name_brings_its_file_back(p: Seq<char>, names: Seq<Seq<char>>)
    ensures
        recall::wanted(p, Seq::empty()),
        forall|j: int|
            0 <= j < names.len() && path::matches_name(p, #[trigger] names[j]) ==> recall::wanted(
                p,
                names,
            ),
        names.len() > 0 && (forall|j: int|
            0 <= j < names.len() ==> !path::matches_name(p, #[trigger] names[j]))
            ==> !recall::wanted(p, names),
{
}

/// A recall goes through the files of the checkpoint one after the other: what it says and
/// prints of one more file comes last, and it is what the file alone is recalled with if
/// no name is given or one of them stands for it, and nothing if none does.
pub proof fn recall_goes_file_by_file<F: Fs>(
    fs: &F,
    c: CommitView,
    e: EntryView,
    names: Seq<Seq<char>>,
    prefix: bool,
)
    ensures
        ({
            let more = CommitView { entries: c.entries.push(e), ..c };
            let none = CommitView { entries: Seq::empty(), ..c };
            let meant = names.len() == 0 || exists|j: int|
                0 <= j < names.len() && path::matches_name(e.path, #[trigger] names[j]);
            &&& recall::all_recalled_err(fs, none, names).len() == 0
            &&& recall::all_recalled_out(fs, none, names, prefix).len() == 0
            &&& recall::all_recalled_err(fs, more, names) == recall::all_recalled_err(fs, c, names)
                + (if meant {
                recall::recalled_err(fs, c, e)
            } else {
                Seq::empty()
            })
            &&& recall::all_recalled_out(fs, more, names, prefix) == recall::all_recalled_out(
                fs,
                c,
                names,
                prefix,
            ) + (if meant {
                recall::recalled_out(fs, e, prefix)
            } else {
                Seq::empty()
            })
        }),
{
    let more = CommitView { entries: c.entries.push(e), ..c };
    let errs = Seq::new(
        c.entries.len(),
        |k: int|
            if recall::wanted(c.entries[k].path, names) {
                recall::recalled_err(fs, c, c.entries[k])
            } else {
                Seq::empty()
            },
    );
    let outs = Seq::new(
        c.entries.len(),
        |k: int|
            if recall::wanted(c.entries[k].path, names) {
                recall::recalled_out(fs, c.entries[k], prefix)
            } else {
                Seq::empty()
            },
    );
    let more_errs = Seq::new(
        more.entries.len(),
        |k: int|
            if recall::wanted(more.entries[k].path, names) {
                recall::recalled_err(fs, more, more.entries[k])
            } else {
                Seq::empty()
            },
    );
    let more_outs = Seq::new(
        more.entries.len(),
        |k: int|
            if recall::wanted(more.entries[k].path, names) {
                recall::recalled_out(fs, more.entries[k], prefix)
            } else {
                Seq::empty()
            },
    );
    assert(more_errs.drop_last() =~= errs);
    assert(more_outs.drop_last() =~= outs);
    assert(more_errs.last() == if recall::wanted(e.path, names) {
        recall::recalled_err(fs, c, e)
    } else {
        Seq::empty()
    });
}

/// The order of the names, and how often each is given, has no bearing on a recall.
pub proof fn recall_heeds_no_order_of_names<F: Fs>(
    fs: &F,
    c: CommitView,
    names: Seq<Seq<char>>,
    others: Seq<Seq<char>>,
    prefix: bool,
)
    requires
        names.len() > 0 <==> others.len() > 0,
        forall|n: Seq<char>| names.contains(n) <==> #[trigger] others.contains(n),
    ensures
        forall|p: Seq<char>| #[trigger] recall::wanted(p, names) == recall::wanted(p, others),
        recall::all_recalled_err(fs, c, names) == recall::all_recalled_err(fs, c, others),
        recall::all_recalled_out(fs, c, names, prefix) == recall::all_recalled_out(
            fs,
            c,
            others,
            prefix,
        ),
{
    assert forall|p: Seq<char>| #[trigger]
        recall::wanted(p, names) == recall::wanted(p, others) by {
        lemma_wanted_by_more(p, names, others);
        lemma_wanted_by_more(p, others, names);
    }
    assert(Seq::new(
        c.entries.len(),
        |k: int|
            if recall::wanted(c.entries[k].path, names) {
                recall::recalled_err(fs, c, c.entries[k])
            } else {
                Seq::empty()
            },
    ) =~= Seq::new(
        c.entries.len(),
        |k: int|
            if recall::wanted(c.entries[k].path, others) {
                recall::recalled_err(fs, c, c.entries[k])
            } else {
                Seq::empty()
            },
    ));
    assert(Seq::new(
        c.entries.len(),
        |k: int|
            if recall::wanted(c.entries[k].path, names) {
                recall::recalled_out(fs, c.entries[k], prefix)
            } else {
                Seq::empty()
            },
    ) =~= Seq::new(
        c.entries.len(),
        |k: int|
            if recall::wanted(c.entries[k].path, others) {
                recall::recalled_out(fs, c.entries[k], prefix)
            } else {
                Seq::empty()
            },
    ));
}

proof fn lemma_wanted_by_more(p: Seq<char>, names: Seq<Seq<char>>, others: Seq<Seq<char>>)
    requires
        names.len() > 0 <==> others.len() > 0,
        forall|n: Seq<char>| names.contains(n) ==> #[trigger] others.contains(n),
    ensures
        recall::wanted(p, names) ==> recall::wanted(p, others),
{
    if recall::wanted(p, names) && names.len() > 0 {
        let j = choose|j: int| 0 <= j < names.len() && path::matches_name(p, #[trigger] names[j]);
        assert(names.contains(names[j]));
        assert(others.contains(names[j]));
        let i = choose|i: int| 0 <= i < others.len() && others[i] == names[j];
        assert(path::matches_name(p, others[i]));
    }
}

/// A file is recalled while it has the identity that was recorded and reaches to the end
/// of the recorded range: then the range is printed and its lines are counted, otherwise
/// it is said to be unavailable and nothing is printed.
pub proof fn recall_needs_the_recorded_identity<F: Fs>(
    fs: &F,
    c: CommitView,
    e: EntryView,
    prefix: bool,
)
    requires
        e.from <= e.to,
        reading::undisturbed(fs, e.path),
    ensures
        ({
            let there = fs.stat_of(e.path) is Some && fs.stat_of(e.path)->0.dev == e.dev
                && fs.stat_of(e.path)->0.ino == e.ino && e.to <= fs.stat_of(e.path)->0.size;
            let head = "=== "@ + path::short_of(e.path) + " @ #"@ + text::decimal(c.id as nat) + (
            match c.message {
                Some(m) => " \""@ + m + "\""@,
                None => Seq::empty(),
            }) + ": "@;
            if there {
                &&& recall::recalled_err(fs, c, e) == head + (text::decimal(e.lines as nat)
                    + " line(s) ===\n"@)
                &&& recall::recalled_out(fs, e, prefix) == show::printed(
                    fs::contents(fs, e.path).subrange(e.from as int, e.to as int),
                    e.path,
                    prefix,
                )
            } else {
                &&& recall::recalled_err(fs, c, e) == head
                    + "unavailable (file rotated/truncated since commit) ===\n"@
                &&& recall::recalled_out(fs, e, prefix).len() == 0
            }
        }),
{
}

/// What a reference finds is the checkpoint that it names: by its id if it is a number,
/// counted from the end if it is `^` or `^N`, and otherwise the first one with that
/// message. It finds nothing only where no checkpoint is named so.
pub proof fn reference_means_its_checkpoint(h: Seq<CommitView>, at: Seq<char>)
    ensures
        recall::referred(h, at) matches Some(k) ==> 0 <= k < h.len(),
        text::as_u32(at) is Some ==> match recall::referred(h, at) {
            Some(k) => h[k].id == text::as_u32(at)->0 && forall|j: int|
                0 <= j < k ==> (#[trigger] h[j]).id != text::as_u32(at)->0,
            None => forall|j: int| 0 <= j < h.len() ==> (#[trigger] h[j]).id != text::as_u32(at)->0,
        },
        at == seq!['^'] ==> recall::referred(h, at) == (if h.len() > 0 {
            Some(h.len() - 1)
        } else {
            None
        }),
        at.len() > 1 && at[0] == '^' && text::as_u32(at.skip(1)) is Some ==> ({
            let n = text::as_u32(at.skip(1))->0;
            recall::referred(h, at) == (if 1 <= n <= h.len() {
                Some(h.len() - n)
            } else {
                None
            })
        }),
        text::as_u32(at) is None && at != seq!['^'] && !(at.len() > 1 && at[0] == '^'
            && text::as_u32(at.skip(1)) is Some) ==> match recall::referred(h, at) {
            Some(k) => h[k].message == Some(at) && forall|j: int|
                0 <= j < k ==> (#[trigger] h[j]).message != Some(at),
            None => forall|j: int| 0 <= j < h.len() ==> (#[trigger] h[j]).message != Some(at),
        },
{
    lemma_with_message_is_first(h, at, 0);
    if text::as_u32(at) is Some {
        lemma_with_id_is_first(h, text::as_u32(at)->0, 0);
        assert(text::unsigned_part(at).len() > 0);
        if at[0] == '^' {
            assert(!text::is_digit(text::unsigned_part(at)[0]));
        }
    }
    if at.len() == 1 && at[0] == '^' {
        assert(at =~= seq!['^']);
    }
}

proof fn lemma_with_id_is_first(h: Seq<CommitView>, id: u32, k: int)
    requires
        0 <= k <= h.len(),
    ensures
        match recall::with_id(h, id, k) {
            Some(i) => k <= i < h.len() && h[i].id == id && forall|j: int|
                k <= j < i ==> (#[trigger] h[j]).id != id,
            None => forall|j: int| k <= j < h.len() ==> (#[trigger] h[j]).id != id,
        },
    decreases h.len() - k,
{
    if k < h.len() {
        lemma_with_id_is_first(h, id, k + 1);
    }
}

proof fn lemma_with_message_is_first(h: Seq<CommitView>, m: Seq<char>, k: int)
    requires
        0 <= k <= h.len(),
    ensures
        match recall::with_message(h, m, k) {
            Some(i) => k <= i < h.len() && h[i].message == Some(m) && forall|j: int|
                k <= j < i ==> (#[trigger] h[j]).message != Some(m),
            None => forall|j: int| k <= j < h.len() ==> (#[trigger] h[j]).message != Some(m),
        },
    decreases h.len() - k,
{
    if k < h.len() {
        lemma_with_message_is_first(h, m, k + 1);
    }
}

} // verus!
