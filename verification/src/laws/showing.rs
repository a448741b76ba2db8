//! What is printed of the new lines.

use vstd::prelude::*;
use vstd::utf8::*;

use crate::commands::follow;
use crate::commands::show;
use crate::cursor;
use crate::cursor::NEWLINE;
use crate::fs;
use crate::fs::Fs;
use crate::laws::lines;
use crate::laws::observing;
use crate::laws::reading;
use crate::laws::recalling;
use crate::path;
use crate::pending;
use crate::state::FileView;
use crate::text;
use crate::viewer;

verus! {

proof fn lemma_first_line(b: Seq<u8>)
    requires
        b.len() > 0,
    ensures
        0 < show::first_line_len(b) <= b.len(),
        forall|i: int| 0 <= i < show::first_line_len(b) - 1 ==> b[i] != NEWLINE,
        b[show::first_line_len(b) - 1] == NEWLINE || show::first_line_len(b) == b.len(),
    decreases b.len(),
{
    if b[0] != NEWLINE {
        let rest = b.drop_first();
        if rest.len() > 0 {
            lemma_first_line(rest);
            let n = show::first_line_len(b) as int;
            assert(b[n - 1] == rest[n - 2]);
            assert forall|i: int| 0 <= i < n - 1 implies b[i] != NEWLINE by {
                if i > 0 {
                    assert(b[i] == rest[i - 1]);
                }
            }
        } else {
            assert(show::first_line_len(rest) == 0);
        }
    }
}

/// The first line of a text ends with its first newline, or with the text.
pub proof fn first_line_ends_at_first_newline(b: Seq<u8>)
    requires
        b.len() > 0,
    ensures
        0 < show::first_line_len(b) <= b.len(),
        forall|i: int| 0 <= i < show::first_line_len(b) - 1 ==> b[i] != 10u8,
        b[show::first_line_len(b) - 1] == 10u8 || show::first_line_len(b) == b.len(),
{
    lemma_first_line(b);
}

proof fn lemma_concat_cons(head: Seq<u8>, rest: Seq<Seq<u8>>)
    ensures
        text::concat(seq![head] + rest) == head + text::concat(rest),
    decreases rest.len(),
{
    let all = seq![head] + rest;
    if rest.len() == 0 {
        assert(all.drop_last() =~= Seq::empty());
        assert(text::concat(all.drop_last()) =~= Seq::empty());
        assert(text::concat(all) =~= head + text::concat(rest));
    } else {
        assert(all.drop_last() =~= seq![head] + rest.drop_last());
        assert(all.last() == rest.last());
        lemma_concat_cons(head, rest.drop_last());
        assert(text::concat(all) =~= head + text::concat(rest));
    }
}

/// The lines of a text make it up: nothing is lost and nothing is added.
pub proof fn lines_make_up_the_text(b: Seq<u8>)
    ensures
        text::concat(viewer::lines_of(b)) == b,
    decreases b.len(),
{
    if b.len() > 0 {
        lemma_first_line(b);
        let n = show::first_line_len(b) as int;
        lines_make_up_the_text(b.skip(n));
        lemma_concat_cons(b.take(n), viewer::lines_of(b.skip(n)));
        assert(b =~= b.take(n) + b.skip(n));
    }
}

/// With tags, each line is printed behind the tag, once.
pub proof fn every_line_is_tagged(b: Seq<u8>, tag: Seq<u8>)
    ensures
        show::tagged(b, tag) == text::concat(
            Seq::new(viewer::lines_of(b).len(), |k: int| tag + viewer::lines_of(b)[k]),
        ),
    decreases b.len(),
{
    let lines = viewer::lines_of(b);
    let parts = Seq::new(lines.len(), |k: int| tag + lines[k]);
    if b.len() > 0 {
        lemma_first_line(b);
        let n = show::first_line_len(b) as int;
        let rest = viewer::lines_of(b.skip(n));
        let others = Seq::new(rest.len(), |k: int| tag + rest[k]);
        every_line_is_tagged(b.skip(n), tag);
        assert(lines == seq![b.take(n)] + rest);
        assert(parts =~= seq![tag + b.take(n)] + others);
        lemma_concat_cons(tag + b.take(n), others);
    } else {
        assert(parts =~= Seq::empty());
        assert(text::concat(parts) =~= Seq::empty());
    }
}

/// In a text of complete lines, every line ends with the only newline in it, and there
/// are as many lines as newlines.
pub proof fn lines_of_complete_text(b: Seq<u8>)
    requires
        b.len() > 0 ==> b.last() == NEWLINE,
    ensures
        viewer::lines_of(b).len() == cursor::newlines(b),
        forall|k: int|
            0 <= k < viewer::lines_of(b).len() ==> {
                let line = #[trigger] viewer::lines_of(b)[k];
                &&& line.len() > 0
                &&& line.last() == NEWLINE
                &&& forall|i: int| 0 <= i < line.len() - 1 ==> line[i] != NEWLINE
            },
    decreases b.len(),
{
    if b.len() > 0 {
        lemma_first_line(b);
        let n = show::first_line_len(b) as int;
        let head = b.take(n);
        let rest = b.skip(n);
        if rest.len() > 0 {
            assert(rest.last() == b.last());
        }
        lines_of_complete_text(rest);
        assert(b =~= head + rest);
        lines::newlines_add_up(head, rest);
        assert(head.last() == NEWLINE);
        assert(cursor::newlines(head) == 1) by {
            lemma_no_newline(head.drop_last());
        }
        assert(viewer::lines_of(b) == seq![head] + viewer::lines_of(rest));
        assert forall|k: int| 0 <= k < viewer::lines_of(b).len() implies {
            let line = #[trigger] viewer::lines_of(b)[k];
            &&& line.len() > 0
            &&& line.last() == NEWLINE
            &&& forall|i: int| 0 <= i < line.len() - 1 ==> line[i] != NEWLINE
        } by {
            if k > 0 {
                assert(viewer::lines_of(b)[k] == viewer::lines_of(rest)[k - 1]);
            }
        }
    }
}

proof fn lemma_no_newline(b: Seq<u8>)
    requires
        forall|i: int| 0 <= i < b.len() ==> b[i] != NEWLINE,
    ensures
        cursor::newlines(b) == 0,
    decreases b.len(),
{
    if b.len() > 0 {
        lemma_no_newline(b.drop_last());
    }
}

/// Without tags, what is printed of a file is a part of it, byte for byte.
pub proof fn printed_is_part_of_file<F: Fs>(fs: &F, f: FileView)
    requires
        reading::undisturbed(fs, f.path),
        fs.stat_of(f.path) is Some,
    ensures
        ({
            let p = pending::pending_of(fs, f);
            show::shown_out(fs, f, false) == fs::contents(fs, f.path).subrange(
                p.from as int,
                p.region.end as int,
            )
        }),
{
    let p = pending::pending_of(fs, f);
    lines::region_splits_file(p.bytes, p.from);
}

/// A text in two parts, the first of complete lines, is tagged part by part.
pub proof fn tagging_goes_line_by_line(a: Seq<u8>, b: Seq<u8>, tag: Seq<u8>)
    requires
        a.len() > 0 ==> a.last() == NEWLINE,
    ensures
        show::tagged(a + b, tag) == show::tagged(a, tag) + show::tagged(b, tag),
    decreases a.len(),
{
    if a.len() == 0 {
        assert(a + b =~= b);
        assert(show::tagged(a, tag) + show::tagged(b, tag) =~= show::tagged(b, tag));
    } else {
        lemma_first_line(a);
        lemma_first_line(a + b);
        let n = show::first_line_len(a) as int;
        let m = show::first_line_len(a + b) as int;
        assert(a[n - 1] == NEWLINE);
        assert((a + b)[n - 1] == a[n - 1]);
        if m < n {
            assert((a + b)[m - 1] == a[m - 1]);
        }
        assert(m == n);
        let rest = a.skip(n);
        if rest.len() > 0 {
            assert(rest.last() == a.last());
        }
        tagging_goes_line_by_line(rest, b, tag);
        assert((a + b).take(n) =~= a.take(n));
        assert((a + b).skip(n) =~= rest + b);
        assert(show::tagged(a + b, tag) =~= show::tagged(a, tag) + show::tagged(b, tag));
    }
}

/// With the file name asked for, each line is printed behind the name of its file, a colon
/// and a blank; otherwise the bytes are printed as they are.
pub proof fn each_printed_line_names_its_file(b: Seq<u8>, p: Seq<char>)
    ensures
        show::printed(b, p, false) == b,
        show::printed(b, p, true) == text::concat(
            Seq::new(
                viewer::lines_of(b).len(),
                |k: int| encode_utf8(path::short_of(p) + ": "@) + viewer::lines_of(b)[k],
            ),
        ),
{
    every_line_is_tagged(b, show::tag_of(p));
    assert(Seq::new(
        viewer::lines_of(b).len(),
        |k: int| encode_utf8(path::short_of(p) + ": "@) + viewer::lines_of(b)[k],
    ) =~= Seq::new(
        viewer::lines_of(b).len(),
        |k: int| show::tag_of(p) + viewer::lines_of(b)[k],
    ));
}

/// Content in two parts, the first of complete lines, is printed part by part.
pub proof fn printing_goes_line_by_line(a: Seq<u8>, b: Seq<u8>, p: Seq<char>, prefix: bool)
    requires
        a.len() > 0 ==> a.last() == NEWLINE,
    ensures
        show::printed(a + b, p, prefix) == show::printed(a, p, prefix) + show::printed(
            b,
            p,
            prefix,
        ),
{
    tagging_goes_line_by_line(a, b, show::tag_of(p));
}

/// What `show` prints of a file that is there is its bytes from the read position to the
/// last line end, with or without the file name before each line.
pub proof fn show_prints_the_new_lines<F: Fs>(fs: &F, f: FileView, prefix: bool, end: int)
    requires
        fs.stat_of(f.path) is Some,
        reading::fits_in_memory(fs, f.path),
        observing::is_last_line_end(
            fs::contents(fs, f.path),
            cursor::read_from(f, fs.stat_of(f.path)) as int,
            end,
        ),
    ensures
        ({
            let from = cursor::read_from(f, fs.stat_of(f.path)) as int;
            show::shown_out(fs, f, prefix) == show::printed(
                observing::behind(fs::contents(fs, f.path), from).take(end - from),
                f.path,
                prefix,
            )
        }),
{
    pending_is_what_stands_behind(fs, f, end);
}

/// What is pending of a file that is there, whether it can be read or not, is what stands
/// behind the read position up to the last line end.
pub proof fn pending_is_what_stands_behind<F: Fs>(fs: &F, f: FileView, end: int)
    requires
        fs.stat_of(f.path) is Some,
        reading::fits_in_memory(fs, f.path),
        observing::is_last_line_end(
            fs::contents(fs, f.path),
            cursor::read_from(f, fs.stat_of(f.path)) as int,
            end,
        ),
    ensures
        ({
            let b = fs::contents(fs, f.path);
            let from = cursor::read_from(f, fs.stat_of(f.path));
            let p = pending::pending_of(fs, f);
            &&& p.from == from
            &&& p.event == cursor::event_of(f, fs.stat_of(f.path))
            &&& p.bytes == b
            &&& p.dev == fs.stat_of(f.path)->0.dev
            &&& p.ino == fs.stat_of(f.path)->0.ino
            &&& p.region.end == end
            &&& p.region.bytes == observing::behind(b, from as int).take(end - from)
            &&& p.region.lines == observing::line_ends(observing::behind(b, from as int))
            &&& p.region.partial == (if end <= b.len() {
                b.len() - end
            } else {
                0
            })
        }),
{
    let p = pending::pending_of(fs, f);
    let b = fs::contents(fs, f.path);
    let from = cursor::read_from(f, fs.stat_of(f.path));
    if from <= b.len() {
        observing::pending_reaches_the_last_line_end(fs, f);
        if p.region.end < end {
            assert(b[end - 1] != 10u8);
        }
        if end < p.region.end {
            assert(b[p.region.end - 1] != 10u8);
        }
        assert(b.subrange(from as int, end) =~= b.skip(from as int).take(end - from));
    } else {
        observing::nothing_is_pending_of_nothing(fs, f);
        observing::newlines_are_line_ends(Seq::empty());
        assert(p.region.bytes =~= Seq::<u8>::empty().take(0));
    }
}

/// `show` prints nothing of a file that is not there.
pub proof fn show_prints_nothing_of_an_absent_file<F: Fs>(fs: &F, f: FileView, prefix: bool)
    requires
        fs.stat_of(f.path) is None,
    ensures
        show::shown_out(fs, f, prefix).len() == 0,
{
    observing::nothing_is_pending_of_nothing(fs, f);
}

/// The header of a file states how many lines it has behind the read position, how long
/// its partial line is if it has one, and the remark on the file if there is one.
pub proof fn header_counts_the_new_lines<F: Fs>(fs: &F, f: FileView, end: int)
    requires
        fs.stat_of(f.path) is Some,
        reading::fits_in_memory(fs, f.path),
        observing::is_last_line_end(
            fs::contents(fs, f.path),
            cursor::read_from(f, fs.stat_of(f.path)) as int,
            end,
        ),
    ensures
        ({
            let b = fs::contents(fs, f.path);
            let from = cursor::read_from(f, fs.stat_of(f.path)) as int;
            let count = "=== "@ + path::short_of(f.path) + ": "@ + text::decimal(
                observing::line_ends(observing::behind(b, from)),
            ) + " new line(s)"@;
            let partial = if end < b.len() {
                ", +"@ + text::decimal((b.len() - end) as nat) + "b partial"@
            } else {
                Seq::empty()
            };
            let remark = match pending::pending_of(fs, f).note {
                Some(note) => "    "@ + note + "\n"@,
                None => Seq::empty(),
            };
            show::shown_err(fs, f) == count + partial + " ===\n"@ + remark
        }),
{
    pending_is_what_stands_behind(fs, f, end);
}

/// The header of a file that is not there states that it has no new line, and the remark.
pub proof fn header_of_an_absent_file<F: Fs>(fs: &F, f: FileView)
    requires
        fs.stat_of(f.path) is None,
    ensures
        show::shown_err(fs, f) == "=== "@ + path::short_of(f.path) + ": "@ + text::decimal(0)
            + " new line(s)"@ + " ===\n"@ + "    "@ + pending::pending_of(fs, f).note->0 + "\n"@,
{
    observing::nothing_is_pending_of_nothing(fs, f);
    observing::remark_on_what_happened(fs, f);
    let said = show::shown_err(fs, f);
    assert(said =~= "=== "@ + path::short_of(f.path) + ": "@ + text::decimal(0)
        + " new line(s)"@ + " ===\n"@ + "    "@ + pending::pending_of(fs, f).note->0 + "\n"@);
}

/// `show` goes through its targets one after the other: with one more target, what it says
/// and prints of that one comes last.
pub proof fn show_goes_target_by_target<F: Fs>(
    fs: &F,
    files: Seq<FileView>,
    sel: Seq<int>,
    i: int,
    prefix: bool,
)
    ensures
        show::all_shown_err(fs, files, Seq::empty()).len() == 0,
        show::all_shown_out(fs, files, Seq::empty(), prefix).len() == 0,
        show::all_shown_err(fs, files, sel.push(i)) == show::all_shown_err(fs, files, sel)
            + show::shown_err(fs, files[i]),
        show::all_shown_out(fs, files, sel.push(i), prefix) == show::all_shown_out(
            fs,
            files,
            sel,
            prefix,
        ) + show::shown_out(fs, files[i], prefix),
{
    let more = sel.push(i);
    assert(Seq::new(more.len(), |k: int| show::shown_err(fs, files[more[k]])).drop_last()
        =~= Seq::new(sel.len(), |k: int| show::shown_err(fs, files[sel[k]])));
    assert(Seq::new(more.len(), |k: int| show::shown_out(fs, files[more[k]], prefix)).drop_last()
        =~= Seq::new(sel.len(), |k: int| show::shown_out(fs, files[sel[k]], prefix)));
}

/// What a round of following prints of a file is what `show` prints of it at that moment,
/// in the first round and in later ones, with the file name before each line and without.
pub proof fn following_prints_what_show_prints<F: Fs>(
    fs: &F,
    f: FileView,
    first: bool,
    prefix: bool,
)
    requires
        reading::fits_in_memory(fs, f.path),
    ensures
        follow::followed_out(f, pending::pending_of(fs, f), first, prefix) == show::shown_out(
            fs,
            f,
            prefix,
        ),
{
    let p = pending::pending_of(fs, f);
    lines::region_ends_at_line_end(p.bytes, p.from);
    cursor::lemma_complete_len(cursor::rest(p.bytes, p.from));
    cursor::lemma_newlines_bound(p.region.bytes);
    lemma_some_line(p.region.bytes);
    lemma_unreported(p);
}

/// A round of following says of a file what `show` says of it. Only after the first round
/// it says nothing of a file that has no new line and was neither replaced nor cut.
pub proof fn following_says_what_show_says<F: Fs>(fs: &F, f: FileView, first: bool)
    requires
        reading::fits_in_memory(fs, f.path),
    ensures
        ({
            let said = follow::followed_err(f, pending::pending_of(fs, f), first);
            let ev = cursor::event_of(f, fs.stat_of(f.path));
            if first || ev is Rotated || ev is Truncated || show::shown_out(fs, f, false).len() > 0
            {
                said == show::shown_err(fs, f)
            } else {
                said.len() == 0
            }
        }),
{
    let p = pending::pending_of(fs, f);
    lines::region_ends_at_line_end(p.bytes, p.from);
    cursor::lemma_complete_len(cursor::rest(p.bytes, p.from));
    cursor::lemma_newlines_bound(p.region.bytes);
    lemma_some_line(p.region.bytes);
    if p.region.bytes.len() == 0 {
        assert(cursor::newlines(p.region.bytes) == 0);
    }
}

/// Following moves a file to behind what it printed of it, and takes over the identity;
/// one that is not there stays as it was.
pub proof fn following_moves_past_what_it_printed<F: Fs>(fs: &F, f: FileView)
    requires
        reading::undisturbed(fs, f.path),
    ensures
        fs.stat_of(f.path) is None ==> follow::followed_file(fs, f) == f,
        fs.stat_of(f.path) is Some ==> ({
            let g = follow::followed_file(fs, f);
            &&& g.path == f.path
            &&& g.dev == fs.stat_of(f.path)->0.dev
            &&& g.ino == fs.stat_of(f.path)->0.ino
            &&& g.cursor == cursor::read_from(f, fs.stat_of(f.path)) + show::shown_out(
                fs,
                f,
                false,
            ).len()
            &&& show::shown_out(fs, g, false).len() == 0
        }),
{
    if fs.stat_of(f.path) is Some {
        observing::pending_reaches_the_last_line_end(fs, f);
        reading::reading_leaves_only_the_partial(fs, f);
    }
}

/// A round of following goes through its targets one after the other.
pub proof fn following_goes_target_by_target<F: Fs>(
    fs: &F,
    files: Seq<FileView>,
    sel: Seq<int>,
    i: int,
)
    ensures
        follow::followed(fs, files, Seq::empty()) == files,
        follow::followed(fs, files, sel.push(i)) == follow::followed(fs, files, sel).update(
            i,
            follow::followed_file(fs, follow::followed(fs, files, sel)[i]),
        ),
{
    assert(sel.push(i).drop_last() =~= sel);
}

/// Each round of following reports every target as it is at that moment, and moves the
/// targets and no other file.
pub proof fn following_goes_through_all_targets<F: Fs>(
    fs: &F,
    files: Seq<FileView>,
    sel: Seq<int>,
    i: int,
)
    requires
        forall|k: int| 0 <= k < sel.len() ==> 0 <= #[trigger] sel[k] < files.len(),
        forall|a: int, b: int| 0 <= a < b < sel.len() ==> #[trigger] sel[a] != #[trigger] sel[b],
        0 <= i < files.len(),
    ensures
        follow::followed(fs, files, sel).len() == files.len(),
        follow::followed(fs, files, sel)[i] == (if sel.contains(i) {
            follow::followed_file(fs, files[i])
        } else {
            files[i]
        }),
    decreases sel.len(),
{
    if sel.len() > 0 {
        let init = sel.drop_last();
        let last = sel[sel.len() - 1];
        assert forall|k: int| 0 <= k < init.len() implies 0 <= #[trigger] init[k] < files.len()
            && init[k] == sel[k] by {}
        assert forall|a: int, b: int| 0 <= a < b < init.len() implies #[trigger] init[a]
            != #[trigger] init[b] by {
            assert(init[a] == sel[a] && init[b] == sel[b]);
        }
        following_goes_through_all_targets(fs, files, init, i);
        following_goes_through_all_targets(fs, files, init, last);
        assert(!init.contains(last)) by {
            if init.contains(last) {
                let k = choose|k: int| 0 <= k < init.len() && init[k] == last;
                assert(sel[k] == last);
            }
        }
        if i == last {
            assert(sel.contains(i));
        } else if init.contains(i) {
            let k = choose|k: int| 0 <= k < init.len() && init[k] == i;
            assert(sel[k] == i);
        } else if sel.contains(i) {
            let k = choose|k: int| 0 <= k < sel.len() && sel[k] == i;
            assert(init[k] == i);
        }
    }
}

/// Two rounds of following a file that only grew print together what one look at its end
/// prints, with the file name before each line and without: nothing is missed and nothing
/// comes twice. (A file that was cut before the first round may by the second have grown
/// past the old cursor, so that one look would not notice.)
pub proof fn following_prints_every_line_once<F: Fs>(
    fs: &F,
    later: &F,
    f: FileView,
    first: bool,
    prefix: bool,
)
    requires
        reading::undisturbed(fs, f.path),
        reading::undisturbed(later, f.path),
        recalling::only_grew(fs, later, f.path),
        f.cursor <= fs.stat_of(f.path)->0.size || pending::pending_of(fs, f).event is Rotated,
    ensures
        ({
            let p = pending::pending_of(fs, f);
            let g = follow::followed_file(fs, f);
            let q = pending::pending_of(later, g);
            follow::followed_out(f, p, first, prefix) + follow::followed_out(g, q, false, prefix)
                == show::shown_out(later, f, prefix)
        }),
{
    let p = pending::pending_of(fs, f);
    let g = follow::followed_file(fs, f);
    let q = pending::pending_of(later, g);
    let a = fs::contents(fs, f.path);
    let b = fs::contents(later, f.path);
    lines::region_splits_file(a, p.from);
    lemma_read_in_parts(a, b, p.from);
    assert(q.from == p.region.end);
    assert(show::shown_out(later, f, prefix) == show::printed(
        cursor::new_lines(b, p.from),
        f.path,
        prefix,
    ));
    lines::region_ends_at_line_end(a, p.from);
    printing_goes_line_by_line(p.region.bytes, q.region.bytes, f.path, prefix);
    following_prints_what_show_prints(fs, f, first, prefix);
    following_prints_what_show_prints(later, g, false, prefix);
}

/// Reading a file, and again after it grew, gives what one reading of the longer file
/// gives.
proof fn lemma_read_in_parts(a: Seq<u8>, b: Seq<u8>, from: u64)
    requires
        from <= a.len(),
        a.is_prefix_of(b),
        b.len() <= usize::MAX,
    ensures
        cursor::new_lines(a, from) + cursor::new_lines(b, cursor::region_of(a, from).end)
            == cursor::new_lines(b, from),
{
    let head = cursor::new_lines(a, from);
    let mid = cursor::region_of(a, from).end;
    let k = head.len() as int;
    let whole = cursor::rest(b, from);
    lines::region_splits_file(a, from);
    lines::region_ends_at_line_end(a, from);
    cursor::lemma_complete_len(whole);
    assert(head =~= whole.take(k));
    assert(cursor::rest(b, mid) =~= whole.skip(k));
    lemma_complete_after(whole, k, head);
    let n = cursor::complete_len(whole) as int;
    assert(whole.take(n) =~= whole.take(k) + whole.skip(k).take(n - k));
}

proof fn lemma_some_line(b: Seq<u8>)
    requires
        b.len() > 0 ==> b.last() == NEWLINE,
    ensures
        cursor::newlines(b) == 0 ==> b.len() == 0,
{
}

/// The complete lines of a text whose first `k` bytes are complete lines are these and
/// the complete lines of the rest.
proof fn lemma_complete_after(b: Seq<u8>, k: int, head: Seq<u8>)
    requires
        0 <= k <= b.len(),
        head == b.take(k),
        k > 0 ==> head.last() == NEWLINE,
    ensures
        cursor::complete_len(b) == k + cursor::complete_len(b.skip(k)),
    decreases b.len() - k,
{
    let rest = b.skip(k);
    if rest.len() == 0 {
        assert(b.take(k) =~= b);
    } else {
        assert(rest.last() == b.last());
        if b.last() != NEWLINE {
            assert(rest.drop_last() =~= b.drop_last().skip(k));
            assert(b.drop_last().take(k) =~= b.take(k));
            lemma_complete_after(b.drop_last(), k, head);
        }
    }
}

/// A file that is not worth a report has no bytes to print.
proof fn lemma_unreported(p: pending::PendingView)
    requires
        p.region.lines == 0 ==> p.region.bytes.len() == 0,
    ensures
        forall|f: FileView, first: bool, prefix: bool| #[trigger]
            follow::followed_out(f, p, first, prefix) == show::printed(
                p.region.bytes,
                f.path,
                prefix,
            ),
{
    assert forall|f: FileView, first: bool, prefix: bool| #[trigger]
        follow::followed_out(f, p, first, prefix) == show::printed(
            p.region.bytes,
            f.path,
            prefix,
        ) by {
        if !follow::worth_report(p, first) {
            assert(p.region.bytes =~= Seq::empty());
        }
    }
}

} // verus!
