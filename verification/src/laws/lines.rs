//! Lines and regions.

use vstd::prelude::*;

use crate::cursor;
use crate::cursor::NEWLINE;

verus! {

/// The lines of two texts, one after the other, are the lines of both.
pub proof fn newlines_add_up(a: Seq<u8>, b: Seq<u8>)
    ensures
        cursor::newlines(a + b) == cursor::newlines(a) + cursor::newlines(b),
    decreases b.len(),
{
    if b.len() == 0 {
        assert(a + b =~= a);
    } else {
        assert((a + b).drop_last() =~= a + b.drop_last());
        assert((a + b).last() == b.last());
        newlines_add_up(a, b.drop_last());
    }
}

proof fn lemma_no_newlines(b: Seq<u8>)
    requires
        forall|i: int| 0 <= i < b.len() ==> b[i] != NEWLINE,
    ensures
        cursor::newlines(b) == 0,
        cursor::complete_len(b) == 0,
    decreases b.len(),
{
    if b.len() > 0 {
        assert(b.last() == b[b.len() - 1]);
        lemma_no_newlines(b.drop_last());
    }
}

/// What follows the complete lines holds no line end.
pub proof fn partial_has_no_line(b: Seq<u8>)
    ensures
        cursor::complete_len(b) <= b.len(),
        cursor::newlines(b.skip(cursor::complete_len(b) as int)) == 0,
        cursor::complete_len(b.skip(cursor::complete_len(b) as int)) == 0,
{
    cursor::lemma_complete_len(b);
    let k = cursor::complete_len(b) as int;
    assert forall|i: int| 0 <= i < b.skip(k).len() implies b.skip(k)[i] != NEWLINE by {
        assert(b.skip(k)[i] == b[k + i]);
    }
    lemma_no_newlines(b.skip(k));
}

/// A file is what was read before, the new complete lines, and a trailing partial line:
/// nothing is left out and nothing is shown twice.
pub proof fn region_splits_file(b: Seq<u8>, from: u64)
    requires
        from <= b.len(),
        b.len() <= usize::MAX,
    ensures
        ({
            let r = cursor::region_of(b, from);
            &&& r.end == from + r.bytes.len() <= b.len()
            &&& r.partial == b.len() - r.end
            &&& r.bytes == b.subrange(from as int, r.end as int)
            &&& b == b.take(from as int) + r.bytes + b.skip(r.end as int)
            &&& forall|i: int| r.end <= i < b.len() ==> b[i] != NEWLINE
        }),
{
    let tail = cursor::rest(b, from);
    let r = cursor::region_of(b, from);
    cursor::lemma_complete_len(tail);
    assert(r.bytes =~= b.subrange(from as int, r.end as int));
    assert(b =~= b.take(from as int) + r.bytes + b.skip(r.end as int));
    assert forall|i: int| r.end <= i < b.len() implies b[i] != NEWLINE by {
        assert(tail[i - from] == b[i]);
    }
}

/// A region never ends in the middle of a line: it is empty, or its last byte ends a line.
/// So nobody commits past half a line.
pub proof fn region_ends_at_line_end(b: Seq<u8>, from: u64)
    ensures
        cursor::new_lines(b, from).len() > 0 ==> cursor::new_lines(b, from).last() == NEWLINE,
{
    let tail = cursor::rest(b, from);
    cursor::lemma_complete_len(tail);
    let new = cursor::new_lines(b, from);
    if new.len() > 0 {
        assert(new.last() == tail[new.len() - 1]);
    }
}

/// The line position of the cursor and the number of new lines add up to all lines.
pub proof fn seen_and_new_lines_are_all(b: Seq<u8>, from: u64)
    ensures
        cursor::newlines(cursor::before(b, from)) + cursor::newlines(cursor::new_lines(b, from))
            == cursor::newlines(b),
{
    let head = cursor::before(b, from);
    let tail = cursor::rest(b, from);
    let new = cursor::new_lines(b, from);
    cursor::lemma_complete_len(tail);
    partial_has_no_line(tail);
    let k = cursor::complete_len(tail) as int;
    assert(tail =~= new + tail.skip(k));
    newlines_add_up(new, tail.skip(k));
    assert(b =~= head + tail);
    newlines_add_up(head, tail);
}

/// Once the new complete lines are read, only the partial line is left, and no complete
/// one.
pub proof fn nothing_is_left_after_region(b: Seq<u8>, from: u64)
    requires
        from <= b.len(),
        b.len() <= usize::MAX,
    ensures
        ({
            let r = cursor::region_of(b, from);
            let again = cursor::region_of(b, r.end);
            &&& again.bytes.len() == 0
            &&& again.lines == 0
            &&& again.end == r.end
            &&& again.partial == r.partial
        }),
{
    region_splits_file(b, from);
    let r = cursor::region_of(b, from);
    let tail = cursor::rest(b, from);
    let left = cursor::rest(b, r.end);
    partial_has_no_line(tail);
    assert(left =~= tail.skip(cursor::complete_len(tail) as int));
    assert(left.take(0) =~= Seq::empty());
}

/// What was written after a read position is all that is new: the complete lines of the
/// bytes that were appended.
pub proof fn appended_lines_are_new(b: Seq<u8>, suffix: Seq<u8>)
    requires
        (b + suffix).len() <= usize::MAX,
        b.len() <= u64::MAX,
    ensures
        cursor::rest(b + suffix, b.len() as u64) == suffix,
        cursor::region_of(b + suffix, b.len() as u64).bytes == cursor::new_lines(suffix, 0),
{
    assert(cursor::rest(b + suffix, b.len() as u64) =~= suffix);
    assert(cursor::rest(suffix, 0) =~= suffix);
}

/// A line that was cut off in the middle surfaces whole once its end is written.
pub proof fn finished_partial_surfaces(b: Seq<u8>, from: u64, suffix: Seq<u8>)
    requires
        from <= b.len(),
        suffix.len() > 0,
        suffix.last() == NEWLINE,
        (b + suffix).len() <= usize::MAX,
    ensures
        cursor::new_lines(b + suffix, from) == cursor::rest(b, from) + suffix,
{
    let all = cursor::rest(b + suffix, from);
    assert(all =~= cursor::rest(b, from) + suffix);
    assert(all.last() == NEWLINE);
    assert(all.take(all.len() as int) =~= all);
}

} // verus!
