//! What is new in a watched file: where reading resumes, what happened to the file, and
//! the complete lines that were not committed yet.

use vstd::prelude::*;

use crate::cursor;
use crate::cursor::{region, resolve, Event, Region, RegionView};
use crate::fs;
use crate::fs::{read_or_empty, Fs};
use crate::path;
use crate::path::short;
use crate::state::{FileState, FileView};
use crate::state;

verus! {

/// The first of `paths` at which a file with the given identity stands.
pub open spec fn first_with_identity<F: Fs>(
    fs: &F,
    paths: Seq<Seq<char>>,
    dev: u64,
    ino: u64,
) -> Option<Seq<char>>
    decreases paths.len(),
{
    if paths.len() == 0 {
        None
    } else if fs.stat_of(paths[0]) is Some && fs.stat_of(paths[0])->0.dev == dev && fs.stat_of(
        paths[0],
    )->0.ino == ino {
        Some(paths[0])
    } else {
        first_with_identity(fs, paths.drop_first(), dev, ino)
    }
}

/// Where a watched file that was replaced now stands, if it is still in its directory.
pub open spec fn moved_to<F: Fs>(fs: &F, f: FileView) -> Option<Seq<char>> {
    first_with_identity(fs, fs.siblings_of(f.path), f.dev, f.ino)
}

/// The remark on an event. That a file was replaced is said together with where its
/// content went, or may have gone.
pub open spec fn remark(ev: Event, moved: Option<Seq<char>>) -> Option<Seq<char>> {
    match ev {
        Event::Same | Event::Appeared => None,
        Event::Missing => Some("not present"@),
        Event::Disappeared => Some("DISAPPEARED since last seen"@),
        Event::Rotated => Some(
            match moved {
                Some(p) =>
                    "⚠ IDENTITY CHANGED (rotated/replaced) — reading new file from start; prior content is in "@
                    + path::short_of(p),
                None =>
                    "⚠ IDENTITY CHANGED (rotated/replaced) — reading new file from start; prior content may be in a rotated file (e.g. *-prev.log)"@,
            },
        ),
        Event::Truncated => Some("⚠ TRUNCATED (shrank) — reading from start"@),
    }
}

/// What is known of a watched file at one observation.
#[verifier::ext_equal]
pub struct PendingView {
    /// Where reading resumes.
    pub from: u64,
    pub event: Event,
    /// Identity of the file now at the path, or the one last seen where there is none.
    pub dev: u64,
    pub ino: u64,
    /// Contents of the file, nothing where there is none.
    pub bytes: Seq<u8>,
    /// The new complete lines.
    pub region: RegionView,
    /// The remark on the event.
    pub note: Option<Seq<char>>,
}

pub open spec fn pending_of<F: Fs>(fs: &F, f: FileView) -> PendingView {
    let st = fs.stat_of(f.path);
    let event = cursor::event_of(f, st);
    let from = cursor::read_from(f, st);
    let bytes = if event.is_absent() {
        Seq::empty()
    } else {
        fs::contents(fs, f.path)
    };
    PendingView {
        from,
        event,
        dev: if st is Some {
            st->0.dev
        } else {
            f.dev
        },
        ino: if st is Some {
            st->0.ino
        } else {
            f.ino
        },
        bytes,
        region: cursor::region_of(bytes, from),
        note: remark(
            event,
            if event is Rotated {
                moved_to(fs, f)
            } else {
                None
            },
        ),
    }
}

/// What is known of a watched file at one observation.
pub struct Pending {
    pub from: u64,
    pub event: Event,
    pub dev: u64,
    pub ino: u64,
    pub bytes: Vec<u8>,
    pub region: Region,
    pub note: Option<String>,
}

impl View for Pending {
    type V = PendingView;

    open spec fn view(&self) -> PendingView {
        PendingView {
            from: self.from,
            event: self.event,
            dev: self.dev,
            ino: self.ino,
            bytes: self.bytes@,
            region: self.region@,
            note: state::text_of(self.note),
        }
    }
}

/// Searches the directory of `path` for a file by its identity.
fn find_identity<F: Fs>(fs: &F, path: &str, dev: u64, ino: u64) -> (found: Option<String>)
    ensures
        state::text_of(found) == first_with_identity(fs, fs.siblings_of(path@), dev, ino),
{
    let paths: Vec<String> = fs.siblings(path);
    let ghost all = state::names_view(paths@);
    let mut i: usize = 0;
    assert(all.skip(0) =~= all);
    while i < paths.len()
        invariant
            i <= paths@.len(),
            all == state::names_view(paths@),
            all == fs.siblings_of(path@),
            first_with_identity(fs, all, dev, ino) == first_with_identity(
                fs,
                all.skip(i as int),
                dev,
                ino,
            ),
        decreases paths@.len() - i,
    {
        assert(all.skip(i as int)[0] == paths@[i as int]@);
        if let Some(s) = fs.stat(paths[i].as_str()) {
            if s.dev == dev && s.ino == ino {
                return Some(paths[i].clone());
            }
        }
        assert(all.skip(i as int).drop_first() =~= all.skip(i + 1));
        i += 1;
    }
    None
}

/// The remark on an event, if there is anything to remark.
pub fn event_note(ev: Event, moved: Option<&str>) -> (note: Option<String>)
    ensures
        state::text_of(note) == remark(
            ev,
            match moved {
                Some(p) => Some(p@),
                None => None,
            },
        ),
{
    match ev {
        Event::Same | Event::Appeared => None,
        Event::Missing => Some("not present".to_owned()),
        Event::Disappeared => Some("DISAPPEARED since last seen".to_owned()),
        Event::Rotated => match moved {
            Some(p) => {
                let mut note: String =
                    "⚠ IDENTITY CHANGED (rotated/replaced) — reading new file from start; prior content is in ".to_owned();
                note.append(short(p));
                Some(note)
            },
            None => Some(
                "⚠ IDENTITY CHANGED (rotated/replaced) — reading new file from start; prior content may be in a rotated file (e.g. *-prev.log)".to_owned(),
            ),
        },
        Event::Truncated => Some("⚠ TRUNCATED (shrank) — reading from start".to_owned()),
    }
}

/// Looks at a watched file. Moves nothing.
pub fn pending<F: Fs>(fs: &F, f: &FileState) -> (p: Pending)
    ensures
        p@ == pending_of(fs, f@),
        p.region.end == p.from + p.region.bytes@.len(),
        p.region.lines == cursor::newlines(p.region.bytes@),
{
    let st = fs.stat(f.path.as_str());
    let (from, event) = resolve(f, &st);
    let bytes: Vec<u8> = if event.absent() {
        Vec::new()
    } else {
        read_or_empty(fs, f.path.as_str())
    };
    let reg = region(bytes.as_slice(), from);
    let moved: Option<String> = if matches!(event, Event::Rotated) {
        find_identity(fs, f.path.as_str(), f.dev, f.ino)
    } else {
        None
    };
    let note: Option<String> = match &moved {
        Some(p) => event_note(event, Some(p.as_str())),
        None => event_note(event, None),
    };
    let (dev, ino) = match st {
        Some(s) => (s.dev, s.ino),
        None => (f.dev, f.ino),
    };
    let p = Pending { from, event, dev, ino, bytes, region: reg, note };
    assert(p@ =~= pending_of(fs, f@));
    p
}

} // verus!
