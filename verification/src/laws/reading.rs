//! Opening, showing and moving past new lines.

use vstd::prelude::*;

use crate::commands::commit;
use crate::commands::moving;
use crate::commands::open;
use crate::commands::show;
use crate::cursor;
use crate::fs;
use crate::fs::Fs;
use crate::laws::lines;
use crate::pending;
use crate::state::{FileView, StateView};
use crate::text;

verus! {

/// An undisturbed observation of a path: the reported size is that of the contents.
pub open spec fn undisturbed<F: Fs>(fs: &F, p: Seq<char>) -> bool {
    fs.stat_of(p) matches Some(s) ==> fs.bytes_of(p) is Some && s.size == fs::contents(
        fs,
        p,
    ).len() && fits_in_memory(fs, p)
}

/// The contents of a path can be held in memory, as those of every file that is read can.
pub open spec fn fits_in_memory<F: Fs>(fs: &F, p: Seq<char>) -> bool {
    fs::contents(fs, p).len() <= usize::MAX
}

/// Nothing of a file is unseen: no complete line, and no partial one.
pub open spec fn up_to_date<F: Fs>(fs: &F, f: FileView) -> bool {
    let r = pending::pending_of(fs, f).region;
    r.bytes.len() == 0 && r.lines == 0 && r.partial == 0
}

/// No complete line of a file is unseen.
pub open spec fn no_new_lines<F: Fs>(fs: &F, f: FileView) -> bool {
    let r = pending::pending_of(fs, f).region;
    r.bytes.len() == 0 && r.lines == 0
}

/// A freshly opened session hides what the files already hold.
pub proof fn open_hides_existing_lines<F: Fs>(fs: &F, paths: Seq<Seq<char>>, i: int)
    requires
        0 <= i < paths.len(),
        undisturbed(fs, paths[i]),
    ensures
        up_to_date(fs, open::opened(fs, paths, false).files[i]),
{
    let f = open::opened(fs, paths, false).files[i];
    let p = pending::pending_of(fs, f);
    assert(cursor::rest(p.bytes, p.from) =~= Seq::empty());
    assert(p.region.bytes =~= Seq::empty());
}

/// Opened from the start, a session shows all complete lines of a file.
pub proof fn open_from_start_shows_all<F: Fs>(fs: &F, paths: Seq<Seq<char>>, i: int)
    requires
        0 <= i < paths.len(),
        fs.stat_of(paths[i]) is Some,
    ensures
        pending::pending_of(fs, open::opened(fs, paths, true).files[i]).region.bytes
            == cursor::new_lines(fs::contents(fs, paths[i]), 0),
{
}

/// After a file was opened at its end and grew, exactly the complete lines of what was
/// appended are new.
pub proof fn growth_shows_exactly_the_new_lines<F: Fs>(
    before: &F,
    after: &F,
    paths: Seq<Seq<char>>,
    i: int,
    suffix: Seq<u8>,
)
    requires
        0 <= i < paths.len(),
        undisturbed(before, paths[i]),
        undisturbed(after, paths[i]),
        before.stat_of(paths[i]) is Some,
        after.stat_of(paths[i]) is Some,
        after.stat_of(paths[i])->0.dev == before.stat_of(paths[i])->0.dev,
        after.stat_of(paths[i])->0.ino == before.stat_of(paths[i])->0.ino,
        fs::contents(after, paths[i]) == fs::contents(before, paths[i]) + suffix,
    ensures
        ({
            let f = open::opened(before, paths, false).files[i];
            let r = pending::pending_of(after, f).region;
            &&& r.bytes == cursor::new_lines(suffix, 0)
            &&& r.partial == suffix.len() - r.bytes.len()
        }),
{
    let b = fs::contents(before, paths[i]);
    lines::appended_lines_are_new(b, suffix);
    cursor::lemma_complete_len(suffix);
    assert(cursor::rest(suffix, 0) =~= suffix);
}

/// A file that was replaced or cut is read from its start, so none of its lines is missed.
pub proof fn replaced_file_is_read_from_start<F: Fs>(fs: &F, f: FileView)
    requires
        fs.stat_of(f.path) is Some,
        f.ino != 0,
        fs.stat_of(f.path)->0.dev != f.dev || fs.stat_of(f.path)->0.ino != f.ino
            || fs.stat_of(f.path)->0.size < f.cursor,
    ensures
        pending::pending_of(fs, f).from == 0,
        pending::pending_of(fs, f).note is Some,
        pending::pending_of(fs, f).region.bytes == cursor::new_lines(
            fs::contents(fs, f.path),
            0,
        ),
{
}

/// Where the remark on a replaced file says that its content went, a file with its
/// identity stands in the same directory.
pub proof fn moved_file_is_found_by_identity<F: Fs>(fs: &F, f: FileView)
    ensures
        match pending::moved_to(fs, f) {
            Some(p) => fs.siblings_of(f.path).contains(p) && fs.stat_of(p) is Some
                && fs.stat_of(p)->0.dev == f.dev && fs.stat_of(p)->0.ino == f.ino,
            None => forall|k: int|
                #![trigger fs.siblings_of(f.path)[k]]
                0 <= k < fs.siblings_of(f.path).len() ==> {
                    let st = fs.stat_of(fs.siblings_of(f.path)[k]);
                    st is Some ==> st->0.dev != f.dev || st->0.ino != f.ino
                },
        },
{
    lemma_first_with_identity(fs, fs.siblings_of(f.path), f.dev, f.ino);
}

proof fn lemma_first_with_identity<F: Fs>(fs: &F, paths: Seq<Seq<char>>, dev: u64, ino: u64)
    ensures
        match pending::first_with_identity(fs, paths, dev, ino) {
            Some(p) => paths.contains(p) && fs.stat_of(p) is Some && fs.stat_of(p)->0.dev == dev
                && fs.stat_of(p)->0.ino == ino,
            None => forall|k: int|
                #![trigger paths[k]]
                0 <= k < paths.len() ==> {
                    let st = fs.stat_of(paths[k]);
                    st is Some ==> st->0.dev != dev || st->0.ino != ino
                },
        },
    decreases paths.len(),
{
    if paths.len() > 0 {
        let rest = paths.drop_first();
        lemma_first_with_identity(fs, rest, dev, ino);
        match pending::first_with_identity(fs, paths, dev, ino) {
            Some(p) => {
                if p != paths[0] || !paths.contains(p) {
                    let k = choose|k: int| 0 <= k < rest.len() && rest[k] == p;
                    assert(paths[k + 1] == p);
                } else {
                    assert(paths[0] == p);
                }
            },
            None => {
                assert forall|k: int| 0 <= k < paths.len() implies {
                    let st = fs.stat_of(#[trigger] paths[k]);
                    st is Some ==> st->0.dev != dev || st->0.ino != ino
                } by {
                    if k > 0 {
                        assert(rest[k - 1] == paths[k]);
                    }
                }
            },
        }
    }
}

/// Reading a file leaves no complete line unseen, and its partial line as it was.
pub proof fn reading_leaves_only_the_partial<F: Fs>(fs: &F, f: FileView)
    requires
        undisturbed(fs, f.path),
        fs.stat_of(f.path) is Some,
    ensures
        ({
            let p = pending::pending_of(fs, f);
            let again = pending::pending_of(fs, moving::settled(f, p));
            &&& again.region.bytes.len() == 0
            &&& again.region.lines == 0
            &&& again.region.partial == p.region.partial
            &&& again.region.end == p.region.end
        }),
{
    let p = pending::pending_of(fs, f);
    lines::region_splits_file(p.bytes, p.from);
    lines::nothing_is_left_after_region(p.bytes, p.from);
}

proof fn lemma_read_file_done<F: Fs>(fs: &F, r: moving::RunView, i: int, verb: Seq<char>, j: int)
    requires
        0 <= i < r.files.len(),
        0 <= j < r.files.len(),
        undisturbed(fs, r.files[i].path),
        i == j || no_new_lines(fs, r.files[j]),
    ensures
        no_new_lines(fs, moving::read_file(fs, r, i, verb).files[j]),
{
    if i == j {
        let f = r.files[i];
        let p = pending::pending_of(fs, f);
        if p.event.is_absent() {
            assert(cursor::rest(p.bytes, p.from) =~= Seq::empty());
            assert(p.region.bytes =~= Seq::empty());
        } else {
            reading_leaves_only_the_partial(fs, f);
        }
    }
}

/// Reading the targets leaves no complete line of any of them unseen.
pub proof fn reading_leaves_no_new_lines<F: Fs>(
    fs: &F,
    files: Seq<FileView>,
    sel: Seq<int>,
    verb: Seq<char>,
    k: int,
)
    requires
        forall|k: int| 0 <= k < sel.len() ==> 0 <= #[trigger] sel[k] < files.len(),
        forall|i: int| 0 <= i < files.len() ==> undisturbed(fs, (#[trigger] files[i]).path),
        0 <= k < sel.len(),
    ensures
        no_new_lines(fs, moving::read_files(fs, files, sel, verb).files[sel[k]]),
    decreases sel.len(),
{
    let init = sel.drop_last();
    let r = moving::read_files(fs, files, init, verb);
    moving::lemma_read_files_paths(fs, files, init, verb);
    let i = sel[sel.len() - 1];
    assert(r.files[i].path == files[i].path);
    if k < sel.len() - 1 {
        reading_leaves_no_new_lines(fs, files, init, verb, k);
        assert(init[k] == sel[k]);
    }
    lemma_read_file_done(fs, r, i, verb, sel[k]);
}

/// Reading touches no file but the targets.
pub proof fn reading_keeps_other_files<F: Fs>(
    fs: &F,
    files: Seq<FileView>,
    sel: Seq<int>,
    verb: Seq<char>,
    i: int,
)
    requires
        forall|k: int| 0 <= k < sel.len() ==> 0 <= #[trigger] sel[k] < files.len(),
        0 <= i < files.len(),
        !sel.contains(i),
    ensures
        moving::read_files(fs, files, sel, verb).files[i] == files[i],
    decreases sel.len(),
{
    if sel.len() > 0 {
        let init = sel.drop_last();
        moving::lemma_read_files_paths(fs, files, init, verb);
        assert(!init.contains(i)) by {
            if init.contains(i) {
                let k = choose|k: int| 0 <= k < init.len() && init[k] == i;
                assert(sel[k] == i);
            }
        }
        assert(sel[sel.len() - 1] != i);
        reading_keeps_other_files(fs, files, init, verb, i);
    }
}

proof fn lemma_concat_empty(parts: Seq<Seq<u8>>)
    requires
        forall|k: int| 0 <= k < parts.len() ==> (#[trigger] parts[k]).len() == 0,
    ensures
        text::concat(parts).len() == 0,
    decreases parts.len(),
{
    if parts.len() > 0 {
        assert(parts.last() == parts[parts.len() - 1]);
        lemma_concat_empty(parts.drop_last());
    }
}

/// Right after a commit, `show` prints nothing of the files that were committed.
pub proof fn commit_then_show_prints_nothing<F: Fs>(
    fs: &F,
    s: StateView,
    sel: Seq<int>,
    message: Option<Seq<char>>,
    created_at: Option<Seq<char>>,
    prefix: bool,
)
    requires
        forall|k: int| 0 <= k < sel.len() ==> 0 <= #[trigger] sel[k] < s.files.len(),
        forall|i: int| 0 <= i < s.files.len() ==> undisturbed(fs, (#[trigger] s.files[i]).path),
    ensures
        show::all_shown_out(
            fs,
            commit::committed(fs, s, sel, message, created_at).files,
            sel,
            prefix,
        ).len() == 0,
{
    lemma_read_prints_nothing(fs, s.files, sel, ""@, prefix);
}

/// Right after an advance, `show` prints nothing of the files that were advanced.
pub proof fn advance_then_show_prints_nothing<F: Fs>(
    fs: &F,
    s: StateView,
    sel: Seq<int>,
    prefix: bool,
)
    requires
        forall|k: int| 0 <= k < sel.len() ==> 0 <= #[trigger] sel[k] < s.files.len(),
        forall|i: int| 0 <= i < s.files.len() ==> undisturbed(fs, (#[trigger] s.files[i]).path),
    ensures
        show::all_shown_out(fs, commit::advanced(fs, s, sel).files, sel, prefix).len() == 0,
{
    lemma_read_prints_nothing(fs, s.files, sel, "advancing past "@, prefix);
}

proof fn lemma_read_prints_nothing<F: Fs>(
    fs: &F,
    files: Seq<FileView>,
    sel: Seq<int>,
    verb: Seq<char>,
    prefix: bool,
)
    requires
        forall|k: int| 0 <= k < sel.len() ==> 0 <= #[trigger] sel[k] < files.len(),
        forall|i: int| 0 <= i < files.len() ==> undisturbed(fs, (#[trigger] files[i]).path),
    ensures
        show::all_shown_out(fs, moving::read_files(fs, files, sel, verb).files, sel, prefix).len()
            == 0,
{
    let after = moving::read_files(fs, files, sel, verb).files;
    let parts = Seq::new(sel.len(), |k: int| show::shown_out(fs, after[sel[k]], prefix));
    assert forall|k: int| 0 <= k < parts.len() implies (#[trigger] parts[k]).len() == 0 by {
        reading_leaves_no_new_lines(fs, files, sel, verb, k);
    }
    lemma_concat_empty(parts);
}

} // verus!
