//! How watched paths are written down.

use vstd::prelude::*;
use vstd::utf8::*;

use crate::path;
use crate::session;
use crate::text;

verus! {

/// A component of a path: not empty, without `/`, not `.`.
pub open spec fn proper(c: Seq<char>) -> bool {
    &&& c.len() > 0
    &&& c != seq!['.']
    &&& forall|i: int| 0 <= i < c.len() ==> c[i] != '/'
}

/// A component that stays in a path: a proper one that is not `..`.
pub open spec fn plain(c: Seq<char>) -> bool {
    proper(c) && c != seq!['.', '.']
}

/// Components that all stay in a path.
pub open spec fn all_plain(cs: Seq<Seq<char>>) -> bool {
    forall|k: int| 0 <= k < cs.len() ==> plain(#[trigger] cs[k])
}

/// A path below an absolute directory, or from the root, is made absolute.
pub proof fn absolute_path_is_absolute(cwd: Option<Seq<char>>, p: Seq<char>)
    requires
        session::absolute(p) || (cwd is Some && session::absolute(cwd->0)),
    ensures
        session::absolute(session::absolute_path(cwd, p)),
{
    reveal_strlit("/");
    let full = session::resolved(cwd, p);
    assert(session::absolute(full));
}

proof fn lemma_components_are_proper(p: Seq<char>)
    ensures
        forall|k: int|
            0 <= k < session::components(p).len() ==> proper(#[trigger] session::components(p)[k]),
    decreases p.len(),
{
    path::lemma_last_slash(p);
    let k = path::last_slash(p);
    let component = p.skip(k + 1);
    if component.len() > 0 && component != seq!['.'] {
        assert forall|i: int| 0 <= i < component.len() implies component[i] != '/' by {
            assert(component[i] == p[k + 1 + i]);
        }
        assert(proper(component));
    }
    let before = if 0 <= k < p.len() {
        session::components(p.take(k))
    } else {
        Seq::empty()
    };
    if 0 <= k < p.len() {
        lemma_components_are_proper(p.take(k));
    }
    let all = session::components(p);
    assert(all == before || (all == before.push(component) && proper(component)));
    assert forall|j: int| 0 <= j < all.len() implies proper(#[trigger] all[j]) by {
        if j < before.len() {
            assert(all[j] == before[j]);
        }
    }
}

proof fn lemma_collapsed_is_plain(cs: Seq<Seq<char>>)
    requires
        forall|k: int| 0 <= k < cs.len() ==> proper(#[trigger] cs[k]),
    ensures
        all_plain(session::collapsed(cs)),
    decreases cs.len(),
{
    if cs.len() > 0 {
        let init = cs.drop_last();
        assert forall|k: int| 0 <= k < init.len() implies proper(#[trigger] init[k]) by {
            assert(init[k] == cs[k]);
        }
        lemma_collapsed_is_plain(init);
        assert(cs.last() == cs[cs.len() - 1]);
    }
}

/// A component behind a slash is the last one of the path.
proof fn lemma_components_push(p: Seq<char>, c: Seq<char>)
    requires
        plain(c),
    ensures
        session::components(p.push('/') + c) == session::components(p).push(c),
{
    let q = p.push('/') + c;
    path::lemma_last_slash(q);
    let k = path::last_slash(q);
    assert(q[p.len() as int] == '/');
    if k > p.len() {
        assert(q[k] == c[k - p.len() - 1]);
    }
    assert(k == p.len());
    assert(q.skip(k + 1) =~= c);
    assert(q.take(k) =~= p);
}

proof fn lemma_component_alone(c: Seq<char>)
    requires
        plain(c),
    ensures
        session::components(c) == seq![c],
{
    path::lemma_last_slash(c);
    let k = path::last_slash(c);
    assert(k == -1);
    assert(c.skip(0) =~= c);
    assert(session::components(c) =~= seq![c]);
}

proof fn lemma_components_of_nothing()
    ensures
        session::components(Seq::empty()) == Seq::<Seq<char>>::empty(),
{
    let e = Seq::<char>::empty();
    assert(path::last_slash(e) == -1);
    assert(e.skip(0).len() == 0);
}

/// A path that is put together of components has these components.
proof fn lemma_components_of_join(cs: Seq<Seq<char>>)
    requires
        all_plain(cs),
    ensures
        session::components(text::join(cs, "/"@)) == cs,
        session::components("/"@ + text::join(cs, "/"@)) == cs,
    decreases cs.len(),
{
    reveal_strlit("/");
    let root = "/"@;
    let joined = text::join(cs, root);
    let e = Seq::<char>::empty();
    lemma_components_of_nothing();
    if cs.len() == 0 {
        path::lemma_last_slash(root);
        assert(root + joined =~= root);
        assert(path::last_slash(root) == 0);
        assert(root.skip(1).len() == 0);
        assert(root.take(0) =~= e);
        assert(cs =~= Seq::empty());
    } else if cs.len() == 1 {
        lemma_component_alone(cs[0]);
        lemma_components_push(e, cs[0]);
        assert(root + joined =~= e.push('/') + cs[0]);
        assert(cs =~= seq![cs[0]]);
        assert(cs =~= Seq::<Seq<char>>::empty().push(cs[0]));
    } else {
        let init = cs.drop_last();
        let c = cs.last();
        assert(all_plain(init)) by {
            assert forall|k: int| 0 <= k < init.len() implies plain(#[trigger] init[k]) by {
                assert(init[k] == cs[k]);
            }
        }
        assert(plain(c)) by {
            assert(cs[cs.len() - 1] == c);
        }
        lemma_components_of_join(init);
        let before = text::join(init, root);
        lemma_components_push(before, c);
        lemma_components_push(root + before, c);
        assert(joined =~= before.push('/') + c);
        assert(root + joined =~= (root + before).push('/') + c);
        assert(init.push(c) =~= cs);
    }
}

/// A path that was made absolute has no empty component, no `.` and no `..`.
pub proof fn absolute_path_is_plain(cwd: Option<Seq<char>>, p: Seq<char>)
    ensures
        all_plain(session::components(session::absolute_path(cwd, p))),
        session::components(session::absolute_path(cwd, p)) == session::collapsed(
            session::components(session::resolved(cwd, p)),
        ),
{
    let full = session::resolved(cwd, p);
    let cs = session::collapsed(session::components(full));
    lemma_components_are_proper(full);
    lemma_collapsed_is_plain(session::components(full));
    lemma_components_of_join(cs);
    assert(Seq::<char>::empty() + text::join(cs, "/"@) =~= text::join(cs, "/"@));
}

proof fn lemma_plain_collapses_to_itself(cs: Seq<Seq<char>>)
    requires
        all_plain(cs),
    ensures
        session::collapsed(cs) == cs,
    decreases cs.len(),
{
    if cs.len() > 0 {
        let init = cs.drop_last();
        assert forall|k: int| 0 <= k < init.len() implies plain(#[trigger] init[k]) by {
            assert(init[k] == cs[k]);
        }
        lemma_plain_collapses_to_itself(init);
        assert(plain(cs[cs.len() - 1]));
        assert(init.push(cs.last()) =~= cs);
    } else {
        assert(cs =~= Seq::empty());
    }
}

/// A path that was made absolute stays as it is when it is made absolute again, from
/// whatever directory: so a session names the same file wherever it is used.
pub proof fn absolute_path_is_final(
    cwd: Option<Seq<char>>,
    p: Seq<char>,
    other: Option<Seq<char>>,
)
    requires
        session::absolute(p) || (cwd is Some && session::absolute(cwd->0)),
    ensures
        session::absolute_path(other, session::absolute_path(cwd, p)) == session::absolute_path(
            cwd,
            p,
        ),
{
    let once = session::absolute_path(cwd, p);
    absolute_path_is_absolute(cwd, p);
    absolute_path_is_plain(cwd, p);
    lemma_plain_collapses_to_itself(session::components(once));
    assert(session::absolute(session::resolved(cwd, p)));
}

/// Components behind a slash come behind those before it.
proof fn lemma_components_split(a: Seq<char>, b: Seq<char>)
    ensures
        session::components(a.push('/') + b) == session::components(a) + session::components(b),
    decreases b.len(),
{
    let q = a.push('/') + b;
    path::lemma_last_slash(q);
    path::lemma_last_slash(b);
    let k = path::last_slash(q);
    let j = path::last_slash(b);
    assert(q[a.len() as int] == '/');
    if j >= 0 {
        assert(q[a.len() + 1 + j] == b[j]);
        if k > a.len() + 1 + j {
            assert(q[k] == b[k - a.len() - 1]);
        }
        assert(k == a.len() + 1 + j);
        assert(q.skip(k + 1) =~= b.skip(j + 1));
        assert(q.take(k) =~= a.push('/') + b.take(j));
        lemma_components_split(a, b.take(j));
        let component = b.skip(j + 1);
        let before = session::components(b.take(j));
        if component.len() == 0 || component == seq!['.'] {
        } else {
            assert((session::components(a) + before).push(component) =~= session::components(a)
                + before.push(component));
        }
    } else {
        if k > a.len() {
            assert(q[k] == b[k - a.len() - 1]);
        }
        assert(k == a.len());
        assert(q.skip(k + 1) =~= b);
        assert(q.take(k) =~= a);
        assert(b.skip(0) =~= b);
        if b.len() == 0 || b == seq!['.'] {
            assert(session::components(a) + session::components(b) =~= session::components(a));
        } else {
            assert(session::components(a).push(b) =~= session::components(a)
                + session::components(b));
        }
    }
}

/// What stands behind a relative path stands behind what it is relative to.
proof fn lemma_resolved_behind(cwd: Option<Seq<char>>, p: Seq<char>, tail: Seq<char>)
    requires
        p.len() > 0,
    ensures
        session::resolved(cwd, p + tail) == session::resolved(cwd, p) + tail,
        session::resolved(cwd, p).len() > 0,
        session::absolute(session::resolved(cwd, p) + tail) == session::absolute(
            session::resolved(cwd, p),
        ),
{
    assert((p + tail)[0] == p[0]);
    assert(session::resolved(cwd, p + tail) =~= session::resolved(cwd, p) + tail);
    assert((session::resolved(cwd, p) + tail)[0] == session::resolved(cwd, p)[0]);
}

/// A relative path is meant from the working directory: it is made absolute as the
/// directory, a slash and the path are.
pub proof fn relative_path_is_meant_from_the_directory(cwd: Seq<char>, p: Seq<char>)
    requires
        cwd.len() > 0,
        !session::absolute(p),
    ensures
        session::absolute_path(Some(cwd), p) == session::absolute_path(None, cwd.push('/') + p),
{
    let full = session::resolved(Some(cwd), p);
    let long = cwd.push('/') + p;
    assert(long[0] == cwd[0]);
    assert(full[0] == cwd[0]);
    lemma_components_split(cwd, p);
    if cwd.last() == '/' {
        let a = cwd.drop_last();
        let e = Seq::<char>::empty();
        assert(cwd =~= a.push('/'));
        assert(cwd =~= a.push('/') + e);
        lemma_components_split(a, e);
        lemma_components_of_nothing();
        lemma_components_split(a, p);
        assert(session::components(a) + Seq::<Seq<char>>::empty() =~= session::components(a));
    } else {
        assert(full == long);
    }
}

/// An absolute path is meant as it is, from whatever directory.
pub proof fn absolute_path_needs_no_directory(cwd: Option<Seq<char>>, p: Seq<char>)
    requires
        session::absolute(p),
    ensures
        session::absolute_path(cwd, p) == session::absolute_path(None, p),
        session::absolute(p) <==> p.len() > 0 && p[0] == '/',
{
}

/// A component behind a path stands behind it in its absolute form too, one slash between
/// them.
pub proof fn component_is_put_behind(cwd: Option<Seq<char>>, p: Seq<char>, c: Seq<char>)
    requires
        p.len() > 0,
        plain(c),
    ensures
        ({
            let made = session::absolute_path(cwd, p);
            session::absolute_path(cwd, p.push('/') + c) == (if made.len() == 0 || made
                == seq!['/'] {
                made + c
            } else {
                made.push('/') + c
            })
        }),
{
    reveal_strlit("/");
    let tail = seq!['/'] + c;
    let full = session::resolved(cwd, p);
    assert(p.push('/') + c =~= p + tail);
    lemma_resolved_behind(cwd, p, tail);
    assert(full + tail =~= full.push('/') + c);
    lemma_components_push(full, c);
    let cs = session::components(full);
    assert(cs.push(c).drop_last() =~= cs);
    let before = session::collapsed(cs);
    let made = session::absolute_path(cwd, p);
    assert(session::collapsed(cs.push(c)) == before.push(c));
    assert(before.push(c).drop_last() =~= before);
    lemma_components_are_proper(full);
    lemma_collapsed_is_plain(cs);
    if before.len() == 0 {
        assert(made == seq!['/'] || made.len() == 0);
        assert(session::absolute_path(cwd, p.push('/') + c) =~= made + c);
    } else {
        lemma_join_is_long(before);
        assert(session::absolute_path(cwd, p.push('/') + c) =~= made.push('/') + c);
    }
}

/// Components joined are not empty, and no slash alone.
proof fn lemma_join_is_long(cs: Seq<Seq<char>>)
    requires
        all_plain(cs),
        cs.len() > 0,
    ensures
        text::join(cs, "/"@).len() > 0,
        text::join(cs, "/"@)[0] != '/',
    decreases cs.len(),
{
    reveal_strlit("/");
    assert(plain(cs[0]));
    if cs.len() > 1 {
        let init = cs.drop_last();
        assert forall|k: int| 0 <= k < init.len() implies plain(#[trigger] init[k]) by {
            assert(init[k] == cs[k]);
        }
        lemma_join_is_long(init);
    }
}

/// A slash more, `.`, or a component and `..` behind a path make no difference.
pub proof fn detours_make_no_difference(cwd: Option<Seq<char>>, p: Seq<char>, c: Seq<char>)
    requires
        p.len() > 0,
        plain(c),
    ensures
        session::absolute_path(cwd, p.push('/')) == session::absolute_path(cwd, p),
        session::absolute_path(cwd, p.push('/') + seq!['.']) == session::absolute_path(cwd, p),
        session::absolute_path(cwd, p.push('/') + c + seq!['/', '.', '.'])
            == session::absolute_path(cwd, p),
{
    let full = session::resolved(cwd, p);
    let cs = session::components(full);
    let e = Seq::<char>::empty();
    let none = Seq::<Seq<char>>::empty();
    let dot = seq!['.'];
    let dots = seq!['.', '.'];
    // a slash
    assert(p.push('/') =~= p + seq!['/']);
    lemma_resolved_behind(cwd, p, seq!['/']);
    assert(full + seq!['/'] =~= full.push('/') + e);
    lemma_components_split(full, e);
    lemma_components_of_nothing();
    assert(cs + none =~= cs);
    // a dot
    assert(p.push('/') + dot =~= p + (seq!['/'] + dot));
    lemma_resolved_behind(cwd, p, seq!['/'] + dot);
    assert(full + (seq!['/'] + dot) =~= full.push('/') + dot);
    lemma_components_split(full, dot);
    path::lemma_last_slash(dot);
    assert(path::last_slash(dot) == -1);
    assert(dot.skip(0) =~= dot);
    assert(session::components(dot) =~= none);
    // a component and two dots
    let tail = seq!['/'] + c + seq!['/', '.', '.'];
    assert(p.push('/') + c + seq!['/', '.', '.'] =~= p + tail);
    lemma_resolved_behind(cwd, p, tail);
    let deep = full.push('/') + c;
    assert(full + tail =~= deep.push('/') + dots);
    lemma_components_split(deep, dots);
    lemma_components_push(full, c);
    path::lemma_last_slash(dots);
    assert(path::last_slash(dots) == -1);
    assert(dots.skip(0) =~= dots);
    assert(dots.len() == 2);
    assert(session::components(dots) =~= seq![dots]);
    let all = session::components(full + tail);
    assert(all =~= cs.push(c).push(dots));
    assert(all.drop_last() =~= cs.push(c));
    assert(cs.push(c).drop_last() =~= cs);
    let before = session::collapsed(cs);
    assert(session::collapsed(cs.push(c)) == before.push(c));
    assert(before.push(c).drop_last() =~= before);
    assert(session::collapsed(all) == before);
}

/// Above the root, and above where a path starts, there is nothing: `..` stays there.
pub proof fn there_is_nothing_above_the_root(cwd: Option<Seq<char>>, p: Seq<char>)
    requires
        p.len() > 0,
        session::absolute_path(cwd, p) == seq!['/'] || session::absolute_path(cwd, p).len() == 0,
    ensures
        session::absolute_path(cwd, p.push('/') + seq!['.', '.']) == session::absolute_path(cwd, p),
        session::absolute_path(cwd, seq!['/']) == seq!['/'],
{
    reveal_strlit("/");
    let full = session::resolved(cwd, p);
    let cs = session::components(full);
    let dots = seq!['.', '.'];
    let tail = seq!['/'] + dots;
    assert(p.push('/') + dots =~= p + tail);
    lemma_resolved_behind(cwd, p, tail);
    assert(full + tail =~= full.push('/') + dots);
    lemma_components_split(full, dots);
    path::lemma_last_slash(dots);
    assert(path::last_slash(dots) == -1);
    assert(dots.skip(0) =~= dots);
    assert(dots.len() == 2);
    assert(session::components(dots) =~= seq![dots]);
    assert(cs + seq![dots] =~= cs.push(dots));
    assert(cs.push(dots).drop_last() =~= cs);
    let before = session::collapsed(cs);
    lemma_components_are_proper(full);
    lemma_collapsed_is_plain(cs);
    if before.len() > 0 {
        lemma_join_is_long(before);
        let made = session::absolute_path(cwd, p);
        if session::absolute(full) {
            assert(made.len() >= 2);
        } else {
            assert(made[0] == text::join(before, "/"@)[0]);
        }
    }
    assert(session::collapsed(cs.push(dots)) =~= before);
    let root = seq!['/'];
    let e = Seq::<char>::empty();
    assert(root =~= e.push('/') + e);
    lemma_components_split(e, e);
    lemma_components_of_nothing();
    assert(session::components(root) =~= Seq::<Seq<char>>::empty());
    assert(session::absolute_path(cwd, root) =~= root);
}

/// The state file is the one that is asked for; else it stands below the state directory,
/// which is the given one if that is an absolute path, and otherwise the default below the
/// home directory.
pub proof fn state_file_follows_the_environment(
    explicit: Seq<u8>,
    xdg: Option<Seq<u8>>,
    home: Option<Seq<u8>>,
    dir: Seq<u8>,
)
    requires
        dir.len() > 0,
        dir.last() != 47,
    ensures
        session::state_file(Some(explicit), xdg, home) == explicit,
        xdg is Some && !(xdg->0.len() > 0 && xdg->0[0] == 47) ==> session::state_file(
            None,
            xdg,
            home,
        ) == session::state_file(None, None, home),
        dir[0] == 47 ==> session::state_file(None, Some(dir), home) == dir + seq![47u8]
            + encode_utf8("logsnap"@) + seq![47u8] + encode_utf8("state.json"@),
        dir[0] == 47 ==> session::state_file(None, Some(dir.push(47u8)), home)
            == session::state_file(None, Some(dir), home),
        session::state_file(None, None, Some(dir)) == dir + seq![47u8] + encode_utf8(".local"@)
            + seq![47u8] + encode_utf8("state"@) + seq![47u8] + encode_utf8("logsnap"@)
            + seq![47u8] + encode_utf8("state.json"@),
        session::state_file(None, None, Some(dir.push(47u8))) == session::state_file(
            None,
            None,
            Some(dir),
        ),
        session::state_file(None, None, None) == encode_utf8(".local"@) + seq![47u8]
            + encode_utf8("state"@) + seq![47u8] + encode_utf8("logsnap"@) + seq![47u8]
            + encode_utf8("state.json"@),
{
    lemma_ascii_names();
    let local = encode_utf8(".local"@);
    let st = encode_utf8("state"@);
    let app = encode_utf8("logsnap"@);
    let file = encode_utf8("state.json"@);
    if dir[0] == 47 {
        let d = session::in_dir(dir, app);
        assert(d =~= dir + seq![47u8] + app);
        assert(d.last() == app.last());
        assert(session::in_dir(d, file) =~= dir + seq![47u8] + app + seq![47u8] + file);
        let slashed = dir.push(47u8);
        assert(slashed[0] == 47);
        assert(session::in_dir(slashed, app) =~= d);
    }
    let h = session::in_dir(dir, local);
    assert(h =~= dir + seq![47u8] + local);
    assert(h.last() == local.last());
    assert(session::in_dir(dir.push(47u8), local) =~= h);
    let hs = session::in_dir(h, st);
    assert(hs =~= dir + seq![47u8] + local + seq![47u8] + st);
    assert(hs.last() == st.last());
    let ha = session::in_dir(hs, app);
    assert(ha =~= dir + seq![47u8] + local + seq![47u8] + st + seq![47u8] + app);
    assert(ha.last() == app.last());
    assert(session::in_dir(ha, file) =~= dir + seq![47u8] + local + seq![47u8] + st + seq![47u8]
        + app + seq![47u8] + file);
    let e = Seq::<u8>::empty();
    let r = session::in_dir(e, local);
    assert(r =~= local);
    let rs = session::in_dir(r, st);
    assert(rs =~= local + seq![47u8] + st);
    assert(rs.last() == st.last());
    let ra = session::in_dir(rs, app);
    assert(ra =~= local + seq![47u8] + st + seq![47u8] + app);
    assert(ra.last() == app.last());
    assert(session::in_dir(ra, file) =~= local + seq![47u8] + st + seq![47u8] + app + seq![47u8]
        + file);
}

/// The names below the state directory do not end with a slash.
proof fn lemma_ascii_names()
    ensures
        encode_utf8(".local"@).len() > 0 && encode_utf8(".local"@).last() != 47,
        encode_utf8("state"@).len() > 0 && encode_utf8("state"@).last() != 47,
        encode_utf8("logsnap"@).len() > 0 && encode_utf8("logsnap"@).last() != 47,
{
    reveal_strlit(".local");
    reveal_strlit("state");
    reveal_strlit("logsnap");
    lemma_last_byte(".local"@);
    lemma_last_byte("state"@);
    lemma_last_byte("logsnap"@);
}

proof fn lemma_ascii_byte(c: char)
    requires
        c < '\u{80}',
    ensures
        encode_scalar(c as u32).len() == 1,
        encode_scalar(c as u32)[0] == c as u32,
{
    let n = c as u32;
    assert(n < 128);
    assert((n & 0x7f) as u8 == n) by (bit_vector)
        requires
            n < 128,
    ;
}

/// The encoding of a text that ends with an ASCII character ends with it.
proof fn lemma_last_byte(s: Seq<char>)
    requires
        s.len() > 0,
        s.last() < '\u{80}',
    ensures
        encode_utf8(s).len() > 0,
        encode_utf8(s).last() == s.last() as u32,
    decreases s.len(),
{
    let rest = s.drop_first();
    if s.len() == 1 {
        assert(rest.len() == 0);
        assert(encode_utf8(rest) =~= Seq::empty());
        assert(encode_utf8(s) =~= encode_scalar(s[0] as u32));
        lemma_ascii_byte(s[0]);
    } else {
        assert(rest.last() == s.last());
        lemma_last_byte(rest);
    }
}

} // verus!
