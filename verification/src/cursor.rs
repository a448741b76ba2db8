//! Line and cursor math: deciding where to read from (rotation and truncation
//! detection) and splitting raw bytes into complete lines and a trailing partial one.

use vstd::prelude::*;

use crate::fs::Stat;
use crate::state::FileState;
use crate::state::FileView;

verus! {

/// How the file at a path relates to the one last seen there.
#[derive(PartialEq, Eq, Structural, Clone, Copy, Debug)]
pub enum Event {
    /// Same identity, at least as long as the cursor.
    Same,
    /// Not present, and never seen.
    Missing,
    /// Seen before, now gone.
    Disappeared,
    /// Never seen before, now there.
    Appeared,
    /// Identity changed: replaced or rotated.
    Rotated,
    /// Same identity but shrank below the cursor.
    Truncated,
}

impl Event {
    pub open spec fn is_absent(self) -> bool {
        self is Missing || self is Disappeared
    }

    /// Whether there is no file to read.
    pub fn absent(self) -> (r: bool)
        ensures
            r == self.is_absent(),
    {
        matches!(self, Event::Missing | Event::Disappeared)
    }
}

/// What happened to a watched file, given what now stands at its path.
pub open spec fn event_of(f: FileView, st: Option<Stat>) -> Event {
    match st {
        None => if f.ino == 0 {
            Event::Missing
        } else {
            Event::Disappeared
        },
        Some(s) => if f.ino == 0 {
            Event::Appeared
        } else if s.dev != f.dev || s.ino != f.ino {
            Event::Rotated
        } else if s.size < f.cursor {
            Event::Truncated
        } else {
            Event::Same
        },
    }
}

/// Where reading resumes: at the cursor, or at the start of a file that was replaced,
/// cut or never there; a file that appears is not read past its end.
pub open spec fn read_from(f: FileView, st: Option<Stat>) -> u64 {
    match event_of(f, st) {
        Event::Same | Event::Disappeared => f.cursor,
        Event::Appeared => if st->0.size < f.cursor {
            st->0.size
        } else {
            f.cursor
        },
        Event::Missing | Event::Rotated | Event::Truncated => 0,
    }
}

/// Decides where to read from, given what now stands at the path.
pub fn resolve(f: &FileState, st: &Option<Stat>) -> (r: (u64, Event))
    ensures
        r.0 == read_from(f@, *st),
        r.1 == event_of(f@, *st),
{
    match st {
        None => {
            if f.ino == 0 {
                (0, Event::Missing)
            } else {
                (f.cursor, Event::Disappeared)
            }
        },
        Some(s) => {
            if f.ino == 0 {
                // Never had an identity (opened while absent): adopt, read from cursor.
                let from: u64 = if s.size < f.cursor {
                    s.size
                } else {
                    f.cursor
                };
                (from, Event::Appeared)
            } else if s.dev != f.dev || s.ino != f.ino {
                (0, Event::Rotated)
            } else if s.size < f.cursor {
                (0, Event::Truncated)
            } else {
                (f.cursor, Event::Same)
            }
        },
    }
}

/// The newline byte.
pub const NEWLINE: u8 = 10;

/// Number of newlines, that is of complete lines, in `b`.
pub open spec fn newlines(b: Seq<u8>) -> nat
    decreases b.len(),
{
    if b.len() == 0 {
        0
    } else {
        newlines(b.drop_last()) + if b.last() == NEWLINE {
            1nat
        } else {
            0nat
        }
    }
}

/// Length of the complete lines that `b` starts with: everything up to and including
/// its last newline.
pub open spec fn complete_len(b: Seq<u8>) -> nat
    decreases b.len(),
{
    if b.len() == 0 || b.last() == NEWLINE {
        b.len()
    } else {
        complete_len(b.drop_last())
    }
}

/// What stands at and after offset `from`: nothing, where `b` ends before it.
pub open spec fn rest(b: Seq<u8>, from: u64) -> Seq<u8> {
    if from <= b.len() {
        b.skip(from as int)
    } else {
        Seq::empty()
    }
}

/// What stands before offset `from`: all of `b`, where it ends before it.
pub open spec fn before(b: Seq<u8>, from: u64) -> Seq<u8> {
    if from <= b.len() {
        b.take(from as int)
    } else {
        b
    }
}

/// The new complete lines of a file.
pub struct Region {
    /// Complete lines (everything up to and including the last newline), raw bytes.
    pub bytes: Vec<u8>,
    /// Absolute byte offset just past the last complete line.
    pub end: u64,
    /// Number of complete lines.
    pub lines: usize,
    /// Bytes of a trailing partial (no newline yet) line, left uncommitted.
    pub partial: usize,
}

#[verifier::ext_equal]
pub struct RegionView {
    pub bytes: Seq<u8>,
    pub end: u64,
    pub lines: usize,
    pub partial: usize,
}

impl View for Region {
    type V = RegionView;

    open spec fn view(&self) -> RegionView {
        RegionView {
            bytes: self.bytes@,
            end: self.end,
            lines: self.lines,
            partial: self.partial,
        }
    }
}

/// The complete lines of `b` from offset `from` on.
pub open spec fn new_lines(b: Seq<u8>, from: u64) -> Seq<u8> {
    rest(b, from).take(complete_len(rest(b, from)) as int)
}

/// The region of new complete lines in `b` starting at absolute offset `from`.
pub open spec fn region_of(b: Seq<u8>, from: u64) -> RegionView {
    let new = new_lines(b, from);
    RegionView {
        bytes: new,
        end: (from + new.len()) as u64,
        lines: newlines(new) as usize,
        partial: (rest(b, from).len() - new.len()) as usize,
    }
}

pub proof fn lemma_newlines_bound(b: Seq<u8>)
    ensures
        newlines(b) <= b.len(),
    decreases b.len(),
{
    if b.len() > 0 {
        lemma_newlines_bound(b.drop_last());
    }
}

/// `complete_len` is where the last newline ends.
pub proof fn lemma_complete_len(b: Seq<u8>)
    ensures
        complete_len(b) <= b.len(),
        complete_len(b) > 0 ==> b[complete_len(b) - 1] == NEWLINE,
        forall|i: int| complete_len(b) <= i < b.len() ==> b[i] != NEWLINE,
    decreases b.len(),
{
    if b.len() > 0 && b.last() != NEWLINE {
        let c = b.drop_last();
        lemma_complete_len(c);
        assert forall|i: int| complete_len(b) <= i < b.len() implies b[i] != NEWLINE by {
            if i < b.len() - 1 {
                assert(c[i] == b[i]);
            }
        }
    }
}

/// Counts the newlines of `b[start..end]`.
pub fn count_newlines(b: &[u8], start: usize, end: usize) -> (n: usize)
    requires
        start <= end <= b@.len(),
    ensures
        n == newlines(b@.subrange(start as int, end as int)),
{
    let mut n: usize = 0;
    let mut i: usize = start;
    while i < end
        invariant
            start <= i <= end <= b@.len(),
            n == newlines(b@.subrange(start as int, i as int)),
            n <= i - start,
        decreases end - i,
    {
        assert(b@.subrange(start as int, i + 1).drop_last() =~= b@.subrange(start as int, i as int));
        if b[i] == NEWLINE {
            n += 1;
        }
        i += 1;
    }
    n
}

/// `from`, or the length of `b` where it ends before.
fn clamp(b: &[u8], from: u64) -> (start: usize)
    ensures
        start <= b@.len(),
        from <= b@.len() ==> start == from,
        from > b@.len() ==> start == b@.len(),
        rest(b@, from) == b@.skip(start as int),
        before(b@, from) == b@.take(start as int),
{
    let len: usize = b.len();
    let start: usize = if from <= len as u64 {
        from as usize
    } else {
        len
    };
    proof {
        if from > b@.len() {
            assert(b@.skip(start as int) =~= Seq::<u8>::empty());
            assert(b@.take(start as int) =~= b@);
        }
    }
    start
}

/// The new complete lines in `bytes` starting at absolute offset `from`.
pub fn region(bytes: &[u8], from: u64) -> (r: Region)
    ensures
        r@ == region_of(bytes@, from),
        r.end == from + r.bytes@.len(),
        r.lines == newlines(new_lines(bytes@, from)),
        r.partial == rest(bytes@, from).len() - r.bytes@.len(),
{
    let start: usize = clamp(bytes, from);
    let ghost tail = rest(bytes@, from);
    let mut end: usize = bytes.len();
    assert(tail.take(tail.len() as int) =~= tail);
    while end > start && bytes[end - 1] != NEWLINE
        invariant
            start <= end <= bytes@.len(),
            tail == bytes@.skip(start as int),
            complete_len(tail) == complete_len(tail.take(end - start)),
        decreases end - start,
    {
        assert(tail.take(end - start).drop_last() =~= tail.take(end - start - 1));
        end -= 1;
    }
    proof {
        if end > start {
            assert(tail.take(end - start).last() == bytes@[end - 1]);
        }
        assert(complete_len(tail) == end - start);
        assert(tail.take(end - start) =~= bytes@.subrange(start as int, end as int));
        lemma_newlines_bound(new_lines(bytes@, from));
    }
    let lines: usize = count_newlines(bytes, start, end);
    let complete: Vec<u8> = copy_range(bytes, start, end);
    Region {
        bytes: complete,
        end: from + (end - start) as u64,
        lines,
        partial: bytes.len() - end,
    }
}

/// A copy of `b[start..end]`.
pub fn copy_range(b: &[u8], start: usize, end: usize) -> (v: Vec<u8>)
    requires
        start <= end <= b@.len(),
    ensures
        v@ == b@.subrange(start as int, end as int),
{
    let mut v: Vec<u8> = Vec::new();
    let mut i: usize = start;
    while i < end
        invariant
            start <= i <= end <= b@.len(),
            v@ == b@.subrange(start as int, i as int),
        decreases end - i,
    {
        v.push(b[i]);
        i += 1;
        assert(v@ =~= b@.subrange(start as int, i as int));
    }
    v
}

/// `(lines before `from`, total lines)`, for the line-based status display.
pub fn line_stats(bytes: &[u8], from: u64) -> (r: (usize, usize))
    ensures
        r.0 == newlines(before(bytes@, from)),
        r.1 == newlines(bytes@),
{
    let n: usize = bytes.len();
    let cut: usize = clamp(bytes, from);
    assert(bytes@.subrange(0, n as int) =~= bytes@);
    assert(bytes@.subrange(0, cut as int) =~= bytes@.take(cut as int));
    (count_newlines(bytes, 0, cut), count_newlines(bytes, 0, n))
}

} // verus!
