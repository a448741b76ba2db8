//! What files are called, and which names stand for them.

use vstd::prelude::*;

use crate::laws::paths;
use crate::path;

verus! {

proof fn lemma_slash_behind(p: Seq<char>, c: Seq<char>)
    requires
        forall|i: int| 0 <= i < c.len() ==> c[i] != '/',
    ensures
        path::last_slash(p.push('/') + c) == p.len(),
        (p.push('/') + c).skip(p.len() as int + 1) == c,
        (p.push('/') + c).take(p.len() as int) == p,
        path::last_slash(c) == -1,
        c.skip(0) == c,
{
    let q = p.push('/') + c;
    path::lemma_last_slash(q);
    path::lemma_last_slash(c);
    let k = path::last_slash(q);
    assert(q[p.len() as int] == '/');
    if k > p.len() {
        assert(q[k] == c[k - p.len() - 1]);
    }
    assert(q.skip(p.len() as int + 1) =~= c);
    assert(q.take(p.len() as int) =~= p);
    assert(c.skip(0) =~= c);
}

/// The file name of a path is its last component: behind the last slash, and behind
/// nothing where there is none.
pub proof fn file_name_is_the_last_component(p: Seq<char>, c: Seq<char>)
    requires
        paths::plain(c),
    ensures
        path::file_name(c) == Some(c),
        path::file_name(p.push('/') + c) == Some(c),
        path::short_of(c) == c,
        path::short_of(p.push('/') + c) == c,
{
    lemma_slash_behind(p, c);
}

/// A slash or `/.` at the end of a path does not change its file name; `..` at the end
/// leaves it without one, and so does nothing at all.
pub proof fn empty_components_have_no_name(p: Seq<char>)
    ensures
        path::file_name(p.push('/')) == path::file_name(p),
        path::file_name(p.push('/') + seq!['.']) == path::file_name(p),
        path::file_name(p.push('/') + seq!['.', '.']) is None,
        path::file_name(seq!['.', '.']) is None,
        path::file_name(seq!['.']) is None,
        path::file_name(Seq::empty()) is None,
{
    let e = Seq::<char>::empty();
    let dot = seq!['.'];
    let dots = seq!['.', '.'];
    lemma_slash_behind(p, e);
    assert(p.push('/') + e =~= p.push('/'));
    assert forall|i: int| 0 <= i < dot.len() implies dot[i] != '/' by {}
    lemma_slash_behind(p, dot);
    assert forall|i: int| 0 <= i < dots.len() implies dots[i] != '/' by {}
    lemma_slash_behind(p, dots);
    assert(dots.len() == 2 && dot.len() == 1);
}

/// A file without a file name is called by its whole path.
pub proof fn nameless_path_is_called_by_all_of_it(p: Seq<char>)
    requires
        path::file_name(p) is None,
    ensures
        path::short_of(p) == p,
{
}

/// A path is named by all of it, by its file name, and by every part of it that it ends
/// with.
pub proof fn path_goes_by_its_ends(head: Seq<char>, tail: Seq<char>)
    ensures
        path::matches_name(head + tail, tail),
        path::matches_name(tail, tail),
        path::matches_name(tail, path::short_of(tail)),
{
    assert((head + tail).skip(head.len() as int) =~= tail);
}

/// And by nothing else.
pub proof fn path_goes_by_nothing_else(p: Seq<char>, name: Seq<char>)
    requires
        path::matches_name(p, name),
    ensures
        path::short_of(p) == name || (name.len() <= p.len() && p.take(p.len() - name.len()) + name
            == p),
{
    if path::short_of(p) != name {
        if p == name {
            assert(p.take(0) + name =~= p);
        } else {
            let k = p.len() - name.len();
            assert(p.skip(k) == name);
            assert(p.take(k) + p.skip(k) =~= p);
        }
    }
}

/// The directory of a path is what stands before its last slash, and nothing where it has
/// none.
pub proof fn directory_stands_before_the_last_slash(d: Seq<char>, c: Seq<char>)
    requires
        forall|i: int| 0 <= i < c.len() ==> c[i] != '/',
    ensures
        path::directory(d.push('/') + c) == d,
        path::directory(c) == Seq::<char>::empty(),
{
    lemma_slash_behind(d, c);
}

} // verus!
