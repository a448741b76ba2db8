//! Which files a command targets.

use vstd::prelude::*;

use crate::path;
use crate::path::path_matches;
use crate::state;
use crate::state::{FileView, State};

verus! {

/// Index of the first file, from `k` on, that a name stands for.
pub open spec fn first_match(files: Seq<FileView>, name: Seq<char>, k: int) -> Option<int>
    decreases files.len() - k,
{
    if k < 0 || k >= files.len() {
        None
    } else if path::matches_name(files[k].path, name) {
        Some(k)
    } else {
        first_match(files, name, k + 1)
    }
}

/// The file that each name stands for, or the first name that stands for none.
pub open spec fn named(files: Seq<FileView>, names: Seq<Seq<char>>) -> Result<Seq<int>, Seq<char>>
    decreases names.len(),
{
    if names.len() == 0 {
        Ok(Seq::empty())
    } else {
        match named(files, names.drop_last()) {
            Err(name) => Err(name),
            Ok(sel) => match first_match(files, names.last(), 0) {
                Some(i) => Ok(sel.push(i)),
                None => Err(names.last()),
            },
        }
    }
}

/// The targets of a command: the named files, or all of them if none is named.
pub open spec fn selection(files: Seq<FileView>, names: Seq<Seq<char>>) -> Result<
    Seq<int>,
    Seq<char>,
> {
    if names.len() == 0 {
        Ok(Seq::new(files.len(), |i: int| i))
    } else {
        named(files, names)
    }
}

/// The complaint about a name that stands for no file.
pub open spec fn not_in_session(name: Seq<char>) -> Seq<char> {
    "not in session: "@ + name
}

pub open spec fn indices(v: Seq<usize>) -> Seq<int> {
    Seq::new(v.len(), |i: int| v[i] as int)
}

/// Every name that stands before a name without a file leaves the result as it is.
proof fn lemma_named_stops(files: Seq<FileView>, names: Seq<Seq<char>>, k: int)
    requires
        0 <= k <= names.len(),
        named(files, names.take(k)) is Err,
    ensures
        named(files, names) == named(files, names.take(k)),
    decreases names.len() - k,
{
    if k < names.len() {
        assert(names.take(k + 1).drop_last() =~= names.take(k));
        lemma_named_stops(files, names, k + 1);
    } else {
        assert(names.take(k) =~= names);
    }
}

/// A selection lies within the files.
pub proof fn lemma_selection_in_range(files: Seq<FileView>, names: Seq<Seq<char>>)
    ensures
        selection(files, names) matches Ok(sel) ==> forall|k: int|
            0 <= k < sel.len() ==> 0 <= #[trigger] sel[k] < files.len(),
{
    if names.len() > 0 {
        lemma_named_in_range(files, names);
    }
}

proof fn lemma_named_in_range(files: Seq<FileView>, names: Seq<Seq<char>>)
    ensures
        named(files, names) matches Ok(sel) ==> sel.len() == names.len() && forall|k: int|
            0 <= k < sel.len() ==> 0 <= #[trigger] sel[k] < files.len()
                && path::matches_name(files[sel[k]].path, names[k]),
    decreases names.len(),
{
    if names.len() > 0 {
        lemma_named_in_range(files, names.drop_last());
        lemma_first_match(files, names.last(), 0);
    }
}

proof fn lemma_first_match(files: Seq<FileView>, name: Seq<char>, k: int)
    ensures
        first_match(files, name, k) matches Some(i) ==> k <= i < files.len()
            && path::matches_name(files[i].path, name),
    decreases files.len() - k,
{
    if 0 <= k < files.len() {
        lemma_first_match(files, name, k + 1);
    }
}

/// The first file that a name stands for.
fn position(state: &State, name: &str) -> (at: Option<usize>)
    ensures
        at matches Some(i) ==> first_match(state@.files, name@, 0) == Some(i as int),
        at is None ==> first_match(state@.files, name@, 0) is None,
{
    let mut i: usize = 0;
    while i < state.files.len()
        invariant
            i <= state.files@.len(),
            first_match(state@.files, name@, 0) == first_match(state@.files, name@, i as int),
        decreases state.files@.len() - i,
    {
        assert(state@.files[i as int].path == state.files@[i as int].path@);
        if path_matches(state.files[i].path.as_str(), name) {
            return Some(i);
        }
        i += 1;
    }
    None
}

/// Which files a command targets: a named subset, or all if none named. A name matches
/// by exact path, by file name, or as a path suffix.
pub fn select(state: &State, names: &[String]) -> (r: Result<Vec<usize>, String>)
    ensures
        match selection(state@.files, state::names_view(names@)) {
            Ok(sel) => r is Ok && indices(r->Ok_0@) == sel && forall|k: int|
                0 <= k < sel.len() ==> 0 <= #[trigger] sel[k] < state.files@.len(),
            Err(name) => r is Err && r->Err_0@ == not_in_session(name),
        },
{
    let ghost files = state@.files;
    let ghost texts = state::names_view(names@);
    proof {
        lemma_selection_in_range(files, texts);
    }
    let mut out: Vec<usize> = Vec::new();
    if names.len() == 0 {
        let mut i: usize = 0;
        while i < state.files.len()
            invariant
                i <= state.files@.len(),
                indices(out@) =~= Seq::new(i as nat, |i: int| i),
            decreases state.files@.len() - i,
        {
            let ghost before = out@;
            out.push(i);
            assert(indices(out@) =~= indices(before).push(i as int));
            i += 1;
        }
        return Ok(out);
    }
    let mut k: usize = 0;
    assert(texts.take(0) =~= Seq::empty());
    assert(indices(out@) =~= Seq::empty());
    while k < names.len()
        invariant
            names@.len() > 0,
            k <= names@.len(),
            files == state@.files,
            texts == state::names_view(names@),
            named(files, texts.take(k as int)) == Ok::<Seq<int>, Seq<char>>(indices(out@)),
        decreases names@.len() - k,
    {
        let ghost prefix = texts.take(k + 1);
        proof {
            assert(prefix.drop_last() =~= texts.take(k as int));
            assert(prefix.last() == names@[k as int]@);
        }
        let name: &str = names[k].as_str();
        match position(state, name) {
            Some(i) => {
                let ghost before = out@;
                out.push(i);
                assert(indices(out@) =~= indices(before).push(i as int));
            },
            None => {
                let mut e: String = "not in session: ".to_owned();
                e.append(name);
                proof {
                    lemma_named_stops(files, texts, k + 1);
                }
                return Err(e);
            },
        }
        k += 1;
    }
    assert(texts.take(k as int) =~= texts);
    Ok(out)
}

} // verus!
