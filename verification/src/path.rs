//! Paths as text: `/`-separated components, file names, directories.

use vstd::prelude::*;

use crate::text;
use crate::text::{chars_of, str_eq};

verus! {

/// Index of the last `/` in `p`, or -1.
pub open spec fn last_slash(p: Seq<char>) -> int
    decreases p.len(),
{
    if p.len() == 0 {
        -1
    } else if p.last() == '/' {
        p.len() - 1
    } else {
        last_slash(p.drop_last())
    }
}

/// The final component of a path: the last one that is neither empty nor `.`.
/// A path without such a component, or whose last one is `..`, has none.
pub open spec fn file_name(p: Seq<char>) -> Option<Seq<char>>
    decreases p.len(),
{
    let k = last_slash(p);
    let component = p.skip(k + 1);
    if component.len() == 0 || component == seq!['.'] {
        if 0 <= k < p.len() {
            file_name(p.take(k))
        } else {
            None
        }
    } else if component == seq!['.', '.'] {
        None
    } else {
        Some(component)
    }
}

/// What a path is called in messages: its file name, or all of it.
pub open spec fn short_of(p: Seq<char>) -> Seq<char> {
    match file_name(p) {
        Some(name) => name,
        None => p,
    }
}

/// A user-supplied name stands for a path: the path itself, its file name, or a suffix.
pub open spec fn matches_name(p: Seq<char>, name: Seq<char>) -> bool {
    p == name || short_of(p) == name || text::ends_with(p, name)
}

/// The directory portion of a path: everything before the last `/`, or nothing.
pub open spec fn directory(p: Seq<char>) -> Seq<char> {
    let k = last_slash(p);
    if 0 <= k < p.len() {
        p.take(k)
    } else {
        Seq::empty()
    }
}

pub proof fn lemma_last_slash(p: Seq<char>)
    ensures
        -1 <= last_slash(p) < p.len(),
        0 <= last_slash(p) ==> p[last_slash(p)] == '/',
        forall|i: int| last_slash(p) < i < p.len() ==> p[i] != '/',
    decreases p.len(),
{
    if p.len() > 0 && p.last() != '/' {
        lemma_last_slash(p.drop_last());
        assert forall|i: int| last_slash(p) < i < p.len() implies p[i] != '/' by {
            if i < p.len() - 1 {
                assert(p.drop_last()[i] == p[i]);
            }
        }
    }
}

/// The number of characters up to and including the last `/` before `end`.
fn component_start(chars: &Vec<char>, end: usize) -> (start: usize)
    requires
        end <= chars@.len(),
    ensures
        start == last_slash(chars@.take(end as int)) + 1,
        start <= end,
{
    let mut k: usize = end;
    while k > 0
        invariant
            k <= end <= chars@.len(),
            last_slash(chars@.take(end as int)) == last_slash(chars@.take(k as int)),
        decreases k,
    {
        assert(chars@.take(k as int).last() == chars@[k - 1]);
        assert(chars@.take(k as int).drop_last() =~= chars@.take(k - 1));
        if chars[k - 1] == '/' {
            return k;
        }
        k -= 1;
    }
    0
}

/// The name by which a path is shown: its file name, or the whole path if it has none.
pub fn short(path: &str) -> (name: &str)
    ensures
        name@ == short_of(path@),
{
    let chars: Vec<char> = chars_of(path);
    let mut end: usize = chars.len();
    assert(path@.take(end as int) =~= path@);
    loop
        invariant
            chars@ == path@,
            end <= path@.len(),
            file_name(path@) == file_name(path@.take(end as int)),
        decreases end,
    {
        let start: usize = component_start(&chars, end);
        let ghost p = path@.take(end as int);
        let ghost component = p.skip(start as int);
        assert(component =~= path@.subrange(start as int, end as int));
        let empty: bool = start == end;
        let dot: bool = end - start == 1 && chars[start] == '.';
        let dots: bool = end - start == 2 && chars[start] == '.' && chars[start + 1] == '.';
        proof {
            if component.len() > 0 {
                assert(component[0] == chars@[start as int]);
            }
            if component.len() > 1 {
                assert(component[1] == chars@[start + 1]);
            }
            assert(seq!['.'][0] == '.');
            assert(seq!['.', '.'][0] == '.' && seq!['.', '.'][1] == '.');
            assert(dot ==> component =~= seq!['.']);
            assert(dots ==> component =~= seq!['.', '.']);
        }
        if empty || dot {
            if start == 0 {
                return path;
            }
            assert(p.take(start - 1) =~= path@.take(start - 1));
            end = start - 1;
        } else if dots {
            return path;
        } else {
            return path.substring_char(start, end);
        }
    }
}

/// Whether `s` ends with `suffix`.
fn has_suffix(s: &str, suffix: &str) -> (r: bool)
    ensures
        r == text::ends_with(s@, suffix@),
{
    let n: usize = s.unicode_len();
    let m: usize = suffix.unicode_len();
    if m > n {
        return false;
    }
    let tail: &str = s.substring_char(n - m, n);
    assert(tail@ =~= s@.skip(n - m));
    str_eq(tail, suffix)
}

/// Whether a session path matches a user-supplied name (exact path, file name, or path
/// suffix).
pub fn path_matches(path: &str, name: &str) -> (r: bool)
    ensures
        r == matches_name(path@, name@),
{
    str_eq(path, name) || str_eq(short(path), name) || has_suffix(path, name)
}

/// The directory portion of a path (everything before the last `/`, else nothing).
pub fn dir_of(path: &str) -> (dir: &str)
    ensures
        dir@ == directory(path@),
{
    let chars: Vec<char> = chars_of(path);
    let n: usize = chars.len();
    assert(path@.take(n as int) =~= path@);
    let start: usize = component_start(&chars, n);
    let end: usize = if start == 0 {
        0
    } else {
        start - 1
    };
    let dir: &str = path.substring_char(0, end);
    assert(dir@ =~= directory(path@));
    dir
}

} // verus!
