//! Which files a command targets.

use vstd::prelude::*;

use crate::commands::select;
use crate::path;
use crate::state::FileView;

verus! {

/// Without names, a command targets every file, once and in order.
pub proof fn no_names_target_all_files(files: Seq<FileView>)
    ensures
        select::selection(files, Seq::empty()) == Ok::<Seq<int>, Seq<char>>(
            Seq::new(files.len(), |i: int| i),
        ),
{
}

/// Whether a name stands for some file.
pub open spec fn known(files: Seq<FileView>, name: Seq<char>) -> bool {
    exists|i: int| 0 <= i < files.len() && path::matches_name((#[trigger] files[i]).path, name)
}

proof fn lemma_first_match(files: Seq<FileView>, name: Seq<char>, k: int)
    requires
        0 <= k <= files.len(),
    ensures
        match select::first_match(files, name, k) {
            Some(i) => {
                &&& k <= i < files.len()
                &&& path::matches_name(files[i].path, name)
                &&& forall|j: int|
                    k <= j < i ==> !path::matches_name((#[trigger] files[j]).path, name)
            },
            None => forall|j: int|
                k <= j < files.len() ==> !path::matches_name((#[trigger] files[j]).path, name),
        },
    decreases files.len() - k,
{
    if k < files.len() && !path::matches_name(files[k].path, name) {
        lemma_first_match(files, name, k + 1);
    }
}

/// With names, a command targets for each name the first file that it stands for; a name
/// that stands for none is refused, and it is the first such name.
pub proof fn each_name_targets_its_first_match(files: Seq<FileView>, names: Seq<Seq<char>>)
    requires
        names.len() > 0,
    ensures
        match select::selection(files, names) {
            Ok(sel) => {
                &&& sel.len() == names.len()
                &&& forall|k: int|
                    0 <= k < names.len() ==> 0 <= #[trigger] sel[k] < files.len()
                        && path::matches_name(files[sel[k]].path, names[k])
                &&& forall|k: int, j: int|
                    #![trigger sel[k], files[j]]
                    0 <= k < names.len() && 0 <= j < sel[k] ==> !path::matches_name(
                        files[j].path,
                        names[k],
                    )
            },
            Err(name) => exists|k: int|
                0 <= k < names.len() && #[trigger] names[k] == name && !known(files, name)
                    && forall|j: int| 0 <= j < k ==> known(files, #[trigger] names[j]),
        },
{
    lemma_named(files, names);
}

proof fn lemma_named(files: Seq<FileView>, names: Seq<Seq<char>>)
    ensures
        match select::named(files, names) {
            Ok(sel) => {
                &&& sel.len() == names.len()
                &&& forall|k: int|
                    0 <= k < names.len() ==> 0 <= #[trigger] sel[k] < files.len()
                        && path::matches_name(files[sel[k]].path, names[k])
                &&& forall|k: int, j: int|
                    #![trigger sel[k], files[j]]
                    0 <= k < names.len() && 0 <= j < sel[k] ==> !path::matches_name(
                        files[j].path,
                        names[k],
                    )
            },
            Err(name) => exists|k: int|
                0 <= k < names.len() && #[trigger] names[k] == name && !known(files, name)
                    && forall|j: int| 0 <= j < k ==> known(files, #[trigger] names[j]),
        },
    decreases names.len(),
{
    if names.len() > 0 {
        let init = names.drop_last();
        let n = names.len() - 1;
        lemma_named(files, init);
        lemma_first_match(files, names.last(), 0);
        match select::named(files, init) {
            Err(name) => {
                let k = choose|k: int|
                    0 <= k < init.len() && #[trigger] init[k] == name && !known(files, name)
                        && forall|j: int| 0 <= j < k ==> known(files, #[trigger] init[j]);
                assert(names[k] == init[k]);
                assert forall|j: int| 0 <= j < k implies known(files, #[trigger] names[j]) by {
                    assert(init[j] == names[j]);
                }
            },
            Ok(sel) => {
                assert(names[n] == names.last());
                assert forall|j: int| 0 <= j < n implies known(files, #[trigger] names[j]) by {
                    assert(init[j] == names[j]);
                    assert(0 <= sel[j] < files.len());
                    assert(path::matches_name(files[sel[j]].path, names[j]));
                }
                assert forall|j: int| 0 <= j < n implies init[j] == #[trigger] names[j] by {}
            },
        }
    }
}

} // verus!
