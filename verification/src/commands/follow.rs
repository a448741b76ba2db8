//! Following: showing new lines as they arrive.

use vstd::prelude::*;

use crate::commands::moving;
use crate::commands::select;
use crate::commands::select::select;
use crate::commands::show;
use crate::commands::show::{push_content, push_header, Report};
use crate::cursor::Event;
use crate::fs::Fs;
use crate::pending;
use crate::pending::{pending, PendingView};
use crate::state;
use crate::state::{FileView, State};

verus! {

/// Whether a file is worth a report: always at first, and then when it has new lines or
/// was replaced or cut.
pub open spec fn worth_report(p: PendingView, first: bool) -> bool {
    first || p.region.lines > 0 || p.event is Rotated || p.event is Truncated
}

/// What following reports of a file.
pub open spec fn followed_err(f: FileView, p: PendingView, first: bool) -> Seq<char> {
    if worth_report(p, first) {
        show::header(f.path, p)
    } else {
        Seq::empty()
    }
}

/// What following prints of a file.
pub open spec fn followed_out(f: FileView, p: PendingView, first: bool, prefix: bool) -> Seq<u8> {
    if worth_report(p, first) {
        show::printed(p.region.bytes, f.path, prefix)
    } else {
        Seq::empty()
    }
}

/// A file after its new lines were shown: read to its last complete line, if it is there.
pub open spec fn followed_file<F: Fs>(fs: &F, f: FileView) -> FileView {
    let p = pending::pending_of(fs, f);
    if p.event.is_absent() {
        f
    } else {
        moving::settled(f, p)
    }
}

/// The files after the targets were followed, one after the other.
pub open spec fn followed<F: Fs>(fs: &F, files: Seq<FileView>, sel: Seq<int>) -> Seq<FileView>
    decreases sel.len(),
{
    if sel.len() == 0 {
        files
    } else {
        let before = followed(fs, files, sel.drop_last());
        before.update(sel.last(), followed_file(fs, before[sel.last()]))
    }
}

/// Shows what arrived in each targeted file, and moves the cursors of this (not persisted)
/// session past it. `first` is set for the first round.
pub fn follow<F: Fs>(state: &mut State, fs: &F, names: &[String], prefix: bool, first: bool) -> (r:
    Result<Vec<Report>, String>)
    ensures
        match select::selection(old(state)@.files, state::names_view(names@)) {
            Ok(sel) => {
                &&& r is Ok
                &&& r->Ok_0@.len() == sel.len()
                &&& forall|k: int|
                    0 <= k < sel.len() ==> ({
                        let f = followed(fs, old(state)@.files, sel.take(k))[sel[k]];
                        let p = pending::pending_of(fs, f);
                        (#[trigger] r->Ok_0@[k]).err@ == followed_err(f, p, first)
                            && r->Ok_0@[k].out@ == followed_out(f, p, first, prefix)
                    })
                &&& final(state)@.files == followed(fs, old(state)@.files, sel)
                &&& final(state)@.undo == old(state)@.undo
                &&& final(state)@.next_id == old(state)@.next_id
                &&& final(state)@.history == old(state)@.history
            },
            Err(name) => r is Err && r->Err_0@ == select::not_in_session(name) && final(state)@
                == old(state)@,
        },
{
    let sel: Vec<usize> = match select(state, names) {
        Ok(sel) => sel,
        Err(e) => return Err(e),
    };
    let ghost start = state@.files;
    let ghost targets = select::indices(sel@);
    let mut reports: Vec<Report> = Vec::new();
    let mut k: usize = 0;
    assert(targets.take(0) =~= Seq::empty());
    while k < sel.len()
        invariant
            k <= sel@.len(),
            targets == select::indices(sel@),
            state.files@.len() == start.len(),
            forall|k: int| 0 <= k < targets.len() ==> 0 <= #[trigger] targets[k] < start.len(),
            reports@.len() == k,
            state.undo == old(state).undo,
            state.next_id == old(state).next_id,
            state.history == old(state).history,
            state::files_view(state.files@) == followed(fs, start, targets.take(k as int)),
            forall|j: int|
                0 <= j < k ==> ({
                    let f = followed(fs, start, targets.take(j))[targets[j]];
                    let p = pending::pending_of(fs, f);
                    (#[trigger] reports@[j]).err@ == followed_err(f, p, first)
                        && reports@[j].out@ == followed_out(f, p, first, prefix)
                }),
        decreases sel@.len() - k,
    {
        let ghost before = state::files_view(state.files@);
        assert(targets.take(k + 1).drop_last() =~= targets.take(k as int));
        assert(targets[k as int] == sel@[k as int]);
        let i: usize = sel[k];
        assert(before[i as int] == state.files@[i as int]@);
        let p = pending(fs, &state.files[i]);
        let mut err: String = String::new();
        let mut out: Vec<u8> = Vec::new();
        let worth: bool = first || p.region.lines > 0 || p.event == Event::Rotated || p.event
            == Event::Truncated;
        if worth {
            push_header(&mut err, state.files[i].path.as_str(), &p);
            push_content(
                &mut out,
                p.region.bytes.as_slice(),
                state.files[i].path.as_str(),
                prefix,
            );
        }
        assert(err@ =~= followed_err(before[i as int], p@, first));
        assert(out@ =~= followed_out(before[i as int], p@, first, prefix));
        reports.push(Report { err, out });
        if !p.event.absent() {
            let f = &mut state.files[i];
            f.cursor = p.region.end;
            f.dev = p.dev;
            f.ino = p.ino;
        }
        assert(state::files_view(state.files@) =~= before.update(
            i as int,
            followed_file(fs, before[i as int]),
        ));
        k += 1;
    }
    assert(targets.take(k as int) =~= targets);
    Ok(reports)
}

} // verus!
