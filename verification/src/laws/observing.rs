//! What is known of one file at one observation.

use vstd::prelude::*;

use crate::cursor;
use crate::fs;
use crate::fs::{Fs, Stat};
use crate::laws::lines;
use crate::laws::reading;
use crate::path;
use crate::pending;
use crate::state::FileView;

verus! {

/// How many of the bytes end a line.
pub open spec fn line_ends(b: Seq<u8>) -> nat {
    b.filter(|c: u8| c == 10u8).len()
}

/// What stands at and behind `from`; nothing where `b` ends before.
pub open spec fn behind(b: Seq<u8>, from: int) -> Seq<u8> {
    if from <= b.len() {
        b.skip(from)
    } else {
        Seq::empty()
    }
}

/// What stands before `from`; all of `b` where it ends before.
pub open spec fn ahead_of(b: Seq<u8>, from: int) -> Seq<u8> {
    if from <= b.len() {
        b.take(from)
    } else {
        b
    }
}

/// Behind `from`, the last complete line of `b` ends at `end`: it is `from` itself, or
/// stands behind a line end, and no line ends after it.
pub open spec fn is_last_line_end(b: Seq<u8>, from: int, end: int) -> bool {
    &&& from <= end
    &&& end == from || (end <= b.len() && b[end - 1] == 10u8)
    &&& forall|i: int| end <= i < b.len() ==> b[i] != 10u8
}

/// The lines of a text are as many as the bytes in it that end one.
pub proof fn newlines_are_line_ends(b: Seq<u8>)
    ensures
        cursor::newlines(b) == line_ends(b),
        line_ends(b) <= b.len(),
    decreases b.len(),
{
    reveal(Seq::filter);
    if b.len() > 0 {
        newlines_are_line_ends(b.drop_last());
    }
}

/// What happened to a file follows from its identity and size alone: one that was never
/// seen is missing or appeared; one that was seen disappeared, was replaced (another
/// identity), was cut (shorter than what was read of it), or is the same.
pub proof fn event_follows_identity_and_size(f: FileView, st: Option<Stat>)
    ensures
        cursor::event_of(f, st).is_absent() <==> st is None,
        cursor::event_of(f, st) is Missing <==> st is None && f.ino == 0,
        cursor::event_of(f, st) is Disappeared <==> st is None && f.ino != 0,
        cursor::event_of(f, st) is Appeared <==> st is Some && f.ino == 0,
        cursor::event_of(f, st) is Rotated <==> f.ino != 0 && (st matches Some(s) && !(s.dev
            == f.dev && s.ino == f.ino)),
        cursor::event_of(f, st) is Truncated <==> f.ino != 0 && (st matches Some(s) && s.dev
            == f.dev && s.ino == f.ino && s.size < f.cursor),
        cursor::event_of(f, st) is Same <==> f.ino != 0 && (st matches Some(s) && s.dev == f.dev
            && s.ino == f.ino && f.cursor <= s.size),
{
}

/// Reading goes on at the cursor, never past the end of the file, and starts over where
/// the file was replaced or cut.
pub proof fn reading_goes_on_at_the_cursor(f: FileView, st: Option<Stat>)
    ensures
        st is Some ==> cursor::read_from(f, st) <= st->0.size,
        st is Some && (f.ino == 0 || (st->0.dev == f.dev && st->0.ino == f.ino)) && f.cursor
            <= st->0.size ==> cursor::read_from(f, st) == f.cursor,
        st is Some && f.ino != 0 && (st->0.dev != f.dev || st->0.ino != f.ino || st->0.size
            < f.cursor) ==> cursor::read_from(f, st) == 0,
        st is Some && f.ino == 0 && st->0.size < f.cursor ==> cursor::read_from(f, st)
            == st->0.size,
        st is None && f.ino != 0 ==> cursor::read_from(f, st) == f.cursor,
        st is None && f.ino == 0 ==> cursor::read_from(f, st) == 0,
{
}

/// What is pending of a file that is there: all its bytes from the read position to the
/// last line end behind it, counted in lines; and behind that a partial line.
pub proof fn pending_reaches_the_last_line_end<F: Fs>(fs: &F, f: FileView)
    requires
        fs.stat_of(f.path) is Some,
        reading::fits_in_memory(fs, f.path),
        cursor::read_from(f, fs.stat_of(f.path)) <= fs::contents(fs, f.path).len(),
    ensures
        ({
            let b = fs::contents(fs, f.path);
            let from = cursor::read_from(f, fs.stat_of(f.path));
            let p = pending::pending_of(fs, f);
            let end = p.region.end;
            &&& p.from == from
            &&& p.bytes == b
            &&& p.event == cursor::event_of(f, fs.stat_of(f.path))
            &&& p.dev == fs.stat_of(f.path)->0.dev
            &&& p.ino == fs.stat_of(f.path)->0.ino
            &&& is_last_line_end(b, from as int, end as int)
            &&& p.region.bytes == b.subrange(from as int, end as int)
            &&& p.region.lines == line_ends(b.skip(from as int))
            &&& p.region.lines == line_ends(p.region.bytes)
            &&& p.region.partial == b.len() - end
        }),
{
    let b = fs::contents(fs, f.path);
    let from = cursor::read_from(f, fs.stat_of(f.path));
    let p = pending::pending_of(fs, f);
    lines::region_splits_file(b, from);
    lines::region_ends_at_line_end(b, from);
    let tail = b.skip(from as int);
    let new = p.region.bytes;
    assert(cursor::rest(b, from) == tail);
    lines::partial_has_no_line(tail);
    assert(tail =~= new + tail.skip(new.len() as int));
    lines::newlines_add_up(new, tail.skip(new.len() as int));
    newlines_are_line_ends(tail);
    newlines_are_line_ends(new);
    if p.region.end > from {
        assert(new.last() == b[p.region.end - 1]);
    }
}

/// Nothing is pending of a file that is not there, nor of one that ends before the read
/// position; its record stays.
pub proof fn nothing_is_pending_of_nothing<F: Fs>(fs: &F, f: FileView)
    requires
        fs.stat_of(f.path) is None || fs::contents(fs, f.path).len() <= cursor::read_from(
            f,
            fs.stat_of(f.path),
        ),
    ensures
        ({
            let p = pending::pending_of(fs, f);
            &&& p.region.bytes.len() == 0
            &&& p.region.lines == 0
            &&& p.region.partial == 0
            &&& p.region.end == p.from
            &&& p.from == cursor::read_from(f, fs.stat_of(f.path))
            &&& fs.stat_of(f.path) is None ==> p.dev == f.dev && p.ino == f.ino
        }),
{
    let p = pending::pending_of(fs, f);
    assert(cursor::rest(p.bytes, p.from) =~= Seq::empty());
    assert(p.region.bytes =~= Seq::empty());
}

/// There is a remark on a file exactly where something happened to it that is no growth;
/// on a replaced one it ends with the name of the file that now has the old identity,
/// where one is left in the directory.
pub proof fn remark_on_what_happened<F: Fs>(fs: &F, f: FileView)
    ensures
        ({
            let p = pending::pending_of(fs, f);
            let ev = cursor::event_of(f, fs.stat_of(f.path));
            &&& p.note is None <==> ev is Same || ev is Appeared
            &&& ev is Missing ==> p.note == Some("not present"@)
            &&& ev is Disappeared ==> p.note == Some("DISAPPEARED since last seen"@)
            &&& ev is Truncated ==> p.note == Some("⚠ TRUNCATED (shrank) — reading from start"@)
            &&& ev is Rotated ==> (p.note->0).take(
                "⚠ IDENTITY CHANGED (rotated/replaced) — reading new file from start"@.len() as int,
            ) == "⚠ IDENTITY CHANGED (rotated/replaced) — reading new file from start"@
            &&& ev is Rotated && pending::moved_to(fs, f) is Some ==> exists|head: Seq<char>|
                p.note == Some(#[trigger] (head + path::short_of(pending::moved_to(fs, f)->0)))
        }),
{
    reveal_strlit("⚠ IDENTITY CHANGED (rotated/replaced) — reading new file from start");
    reveal_strlit(
        "⚠ IDENTITY CHANGED (rotated/replaced) — reading new file from start; prior content is in ",
    );
    reveal_strlit(
        "⚠ IDENTITY CHANGED (rotated/replaced) — reading new file from start; prior content may be in a rotated file (e.g. *-prev.log)",
    );
    let p = pending::pending_of(fs, f);
    let start = "⚠ IDENTITY CHANGED (rotated/replaced) — reading new file from start"@;
    if cursor::event_of(f, fs.stat_of(f.path)) is Rotated {
        assert((p.note->0).take(start.len() as int) =~= start);
    }
}

/// A file that cannot be read counts as empty.
pub proof fn unreadable_file_counts_as_empty<F: Fs>(fs: &F, p: Seq<char>)
    ensures
        fs.bytes_of(p) is Some ==> fs::contents(fs, p) == fs.bytes_of(p)->0,
        fs.bytes_of(p) is None ==> fs::contents(fs, p).len() == 0,
{
}

/// Of several files in the directory that have the old identity, the first is named.
pub proof fn first_sibling_with_the_identity_is_named<F: Fs>(fs: &F, f: FileView, k: int)
    requires
        0 <= k < fs.siblings_of(f.path).len(),
        has_identity(fs, fs.siblings_of(f.path)[k], f),
        forall|j: int|
            0 <= j < k ==> !has_identity(fs, #[trigger] fs.siblings_of(f.path)[j], f),
    ensures
        pending::moved_to(fs, f) == Some(fs.siblings_of(f.path)[k]),
{
    lemma_first_sibling(fs, fs.siblings_of(f.path), f, k);
}

/// A path has the identity that is recorded of a file.
pub open spec fn has_identity<F: Fs>(fs: &F, p: Seq<char>, f: FileView) -> bool {
    fs.stat_of(p) is Some && fs.stat_of(p)->0.dev == f.dev && fs.stat_of(p)->0.ino == f.ino
}

proof fn lemma_first_sibling<F: Fs>(fs: &F, all: Seq<Seq<char>>, f: FileView, k: int)
    requires
        0 <= k < all.len(),
        has_identity(fs, all[k], f),
        forall|j: int| 0 <= j < k ==> !has_identity(fs, #[trigger] all[j], f),
    ensures
        pending::first_with_identity(fs, all, f.dev, f.ino) == Some(all[k]),
    decreases k,
{
    if k > 0 {
        let rest = all.drop_first();
        assert(!has_identity(fs, all[0], f));
        assert forall|j: int| 0 <= j < k - 1 implies !has_identity(fs, #[trigger] rest[j], f) by {
            assert(rest[j] == all[j + 1]);
        }
        assert(rest[k - 1] == all[k]);
        lemma_first_sibling(fs, rest, f, k - 1);
    }
}

} // verus!
