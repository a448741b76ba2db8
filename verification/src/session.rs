//! Where a session is kept, and how the paths that it watches are written down.

use vstd::prelude::*;

use crate::memfs;
use crate::path;
use crate::text;
use crate::text::{chars_of, push_bytes};

verus! {

/// A path from the root.
pub open spec fn absolute(p: Seq<char>) -> bool {
    p.len() > 0 && p[0] == '/'
}

/// The components of a path that count: all but the empty ones and `.`.
pub open spec fn components(p: Seq<char>) -> Seq<Seq<char>>
    decreases p.len(),
{
    let k = path::last_slash(p);
    let component = p.skip(k + 1);
    let before = if 0 <= k < p.len() {
        components(p.take(k))
    } else {
        Seq::empty()
    };
    if component.len() == 0 || component == seq!['.'] {
        before
    } else {
        before.push(component)
    }
}

/// Components with each `..` taken together with the one before it.
pub open spec fn collapsed(cs: Seq<Seq<char>>) -> Seq<Seq<char>>
    decreases cs.len(),
{
    if cs.len() == 0 {
        Seq::empty()
    } else {
        let before = collapsed(cs.drop_last());
        if cs.last() == seq!['.', '.'] {
            if before.len() > 0 {
                before.drop_last()
            } else {
                before
            }
        } else {
            before.push(cs.last())
        }
    }
}

/// A path relative to the directory `base`.
pub open spec fn resolved(base: Option<Seq<char>>, p: Seq<char>) -> Seq<char> {
    if absolute(p) {
        p
    } else {
        match base {
            Some(b) => if b.len() == 0 || b.last() == '/' {
                b + p
            } else {
                b.push('/') + p
            },
            None => p,
        }
    }
}

/// A path made absolute and collapsed, without regard to what exists.
pub open spec fn absolute_path(cwd: Option<Seq<char>>, p: Seq<char>) -> Seq<char> {
    let full = resolved(cwd, p);
    (if absolute(full) {
        "/"@
    } else {
        Seq::empty()
    }) + text::join(collapsed(components(full)), "/"@)
}

proof fn lemma_component(p: Seq<char>, start: int, end: int)
    requires
        0 <= start <= end <= p.len(),
        start > 0 ==> p[start - 1] == '/',
        forall|i: int| start <= i < end ==> p[i] != '/',
    ensures
        path::last_slash(p.take(end)) == start - 1,
{
    let q = p.take(end);
    path::lemma_last_slash(q);
    let k = path::last_slash(q);
    if k < start - 1 {
        assert(q[start - 1] == p[start - 1]);
    }
    if k >= start {
        assert(q[k] == p[k]);
    }
}

/// Views a stack of strings.
pub open spec fn stack_view(v: Seq<String>) -> Seq<Seq<char>> {
    crate::state::names_view(v)
}

/// The components of a path, collapsed.
fn collapse(p: &str) -> (stack: Vec<String>)
    ensures
        stack_view(stack@) == collapsed(components(p@)),
{
    let chars: Vec<char> = chars_of(p);
    let n: usize = chars.len();
    let mut stack: Vec<String> = Vec::new();
    let mut start: usize = 0;
    let ghost mut done: Seq<Seq<char>> = Seq::empty();
    assert(stack_view(stack@) =~= collapsed(done));
    loop
        invariant
            chars@ == p@,
            n == chars@.len(),
            start <= n,
            start > 0 ==> p@[start - 1] == '/',
            done == (if start > 0 {
                components(p@.take(start - 1))
            } else {
                Seq::empty()
            }),
            stack_view(stack@) == collapsed(done),
        decreases n - start,
    {
        let mut end: usize = start;
        while end < n && chars[end] != '/'
            invariant
                chars@ == p@,
                n == chars@.len(),
                start <= end <= n,
                forall|i: int| start <= i < end ==> p@[i] != '/',
            decreases n - end,
        {
            end += 1;
        }
        let empty: bool = end == start;
        let dot: bool = end - start == 1 && chars[start] == '.';
        let dots: bool = end - start == 2 && chars[start] == '.' && chars[start + 1] == '.';
        let ghost whole = p@.take(end as int);
        let ghost component = whole.skip(start as int);
        let ghost before = stack@;
        proof {
            lemma_component(p@, start as int, end as int);
            assert(component =~= p@.subrange(start as int, end as int));
            if start > 0 {
                assert(whole.take(start - 1) =~= p@.take(start - 1));
            }
            if component.len() > 0 {
                assert(component[0] == p@[start as int]);
            }
            if component.len() > 1 {
                assert(component[1] == p@[start + 1]);
            }
            assert(seq!['.'][0] == '.');
            assert(seq!['.', '.'][0] == '.' && seq!['.', '.'][1] == '.');
            assert(dot ==> component =~= seq!['.']);
            assert(dots ==> component =~= seq!['.', '.']);
            let next = components(whole);
            if !(empty || dot) {
                assert(next == done.push(component));
                assert(next.drop_last() =~= done);
            }
            done = next;
        }
        if !(empty || dot) {
            if dots {
                if stack.len() > 0 {
                    let _ = stack.pop();
                    assert(stack_view(stack@) =~= stack_view(before).drop_last());
                }
            } else {
                let c: String = p.substring_char(start, end).to_owned();
                stack.push(c);
                assert(stack_view(stack@) =~= stack_view(before).push(component));
            }
        }
        if end == n {
            assert(whole =~= p@);
            return stack;
        }
        start = end + 1;
    }
}

/// Appends the components, separated by slashes.
fn push_joined(s: &mut String, parts: &Vec<String>)
    ensures
        final(s)@ == old(s)@ + text::join(stack_view(parts@), "/"@),
{
    let ghost view = stack_view(parts@);
    let mut k: usize = 0;
    assert(view.take(0) =~= Seq::empty());
    assert(s@ =~= old(s)@ + text::join(view.take(0), "/"@));
    while k < parts.len()
        invariant
            k <= parts@.len(),
            view == stack_view(parts@),
            s@ == old(s)@ + text::join(view.take(k as int), "/"@),
        decreases parts@.len() - k,
    {
        assert(view.take(k + 1).drop_last() =~= view.take(k as int));
        assert(view.take(k + 1).last() == parts@[k as int]@);
        if k > 0 {
            s.append("/");
        }
        s.append(parts[k].as_str());
        assert(s@ =~= old(s)@ + text::join(view.take(k + 1), "/"@));
        k += 1;
    }
    assert(view.take(k as int) =~= view);
}

fn is_absolute(p: &str) -> (r: bool)
    ensures
        r == absolute(p@),
{
    p.unicode_len() > 0 && p.get_char(0) == '/'
}

/// Makes a path absolute without requiring it to exist (the log may not be created yet),
/// collapsing `.` and `..` lexically. `cwd` is the current directory, if it is known.
pub fn abspath(cwd: Option<&str>, s: &str) -> (r: String)
    ensures
        r@ == absolute_path(
            match cwd {
                Some(c) => Some(c@),
                None => None,
            },
            s@,
        ),
{
    let full: String = if is_absolute(s) {
        s.to_owned()
    } else {
        match cwd {
            Some(c) => {
                let n: usize = c.unicode_len();
                let mut full: String = c.to_owned();
                if n > 0 && c.get_char(n - 1) != '/' {
                    proof {
                        reveal_strlit("/");
                    }
                    full.append("/");
                    assert(full@ =~= c@.push('/'));
                }
                full.append(s);
                full
            },
            None => s.to_owned(),
        }
    };
    let mut r: String = String::new();
    if is_absolute(full.as_str()) {
        r.append("/");
    }
    let parts: Vec<String> = collapse(full.as_str());
    push_joined(&mut r, &parts);
    assert(r@ =~= absolute_path(
        match cwd {
            Some(c) => Some(c@),
            None => None,
        },
        s@,
    ));
    r
}

/// `name` in the directory `dir`, both as bytes.
pub open spec fn in_dir(dir: Seq<u8>, name: Seq<u8>) -> Seq<u8> {
    if dir.len() == 0 || dir.last() == 47 {
        dir + name
    } else {
        dir.push(47) + name
    }
}

/// The directory in which programs keep their state: `xdg`, where it is an absolute path,
/// or the default below the home directory.
pub open spec fn state_home(xdg: Option<Seq<u8>>, home: Option<Seq<u8>>) -> Seq<u8> {
    if xdg is Some && xdg->0.len() > 0 && xdg->0[0] == 47 {
        xdg->0
    } else {
        in_dir(
            in_dir(
                if home is Some {
                    home->0
                } else {
                    Seq::empty()
                },
                memfs::utf8(".local"@),
            ),
            memfs::utf8("state"@),
        )
    }
}

/// The state file: the explicit one, or the one of this program below the state directory.
pub open spec fn state_file(
    explicit: Option<Seq<u8>>,
    xdg: Option<Seq<u8>>,
    home: Option<Seq<u8>>,
) -> Seq<u8> {
    match explicit {
        Some(p) => p,
        None => in_dir(
            in_dir(state_home(xdg, home), memfs::utf8("logsnap"@)),
            memfs::utf8("state.json"@),
        ),
    }
}

/// The bytes of an optional slice.
pub open spec fn bytes_of(s: Option<&[u8]>) -> Option<Seq<u8>> {
    match s {
        Some(b) => Some(b@),
        None => None,
    }
}

fn push_in_dir(dir: &mut Vec<u8>, name: &str)
    ensures
        final(dir)@ == in_dir(old(dir)@, memfs::utf8(name@)),
{
    let n: usize = dir.len();
    if n > 0 && dir[n - 1] != 47 {
        dir.push(47);
    }
    push_bytes(dir, name.as_bytes());
    assert(dir@ =~= in_dir(old(dir)@, memfs::utf8(name@)));
}

/// The canonical state file path, in bytes: `explicit` if set, else `logsnap/state.json`
/// below the state directory (`xdg` if it is absolute, else `.local/state` below `home`).
pub fn state_path(explicit: Option<&[u8]>, xdg: Option<&[u8]>, home: Option<&[u8]>) -> (r: Vec<u8>)
    ensures
        r@ == state_file(bytes_of(explicit), bytes_of(xdg), bytes_of(home)),
{
    let mut p: Vec<u8> = Vec::new();
    if let Some(e) = explicit {
        push_bytes(&mut p, e);
        assert(p@ =~= e@);
        return p;
    }
    let mut given: bool = false;
    if let Some(x) = xdg {
        if x.len() > 0 && x[0] == 47 {
            push_bytes(&mut p, x);
            assert(p@ =~= x@);
            given = true;
        }
    }
    if !given {
        if let Some(h) = home {
            push_bytes(&mut p, h);
            assert(p@ =~= h@);
        }
        push_in_dir(&mut p, ".local");
        push_in_dir(&mut p, "state");
    }
    push_in_dir(&mut p, "logsnap");
    push_in_dir(&mut p, "state.json");
    p
}

} // verus!
