//! An in-memory filesystem that models growth, rotation and truncation.

use vstd::prelude::*;

use crate::fs::{Fs, Stat};
use crate::path;
use crate::path::dir_of;
use crate::state;
use crate::text::{chars_of, push_bytes, str_eq};

verus! {

/// Order of strings: character by character, a prefix first.
pub open spec fn precedes(a: Seq<char>, b: Seq<char>) -> bool
    decreases a.len(),
{
    if b.len() == 0 {
        false
    } else if a.len() == 0 {
        true
    } else if a[0] == b[0] {
        precedes(a.drop_first(), b.drop_first())
    } else {
        (a[0] as int) < (b[0] as int)
    }
}

proof fn lemma_precedes_irreflexive(a: Seq<char>)
    ensures
        !precedes(a, a),
    decreases a.len(),
{
    if a.len() > 0 {
        lemma_precedes_irreflexive(a.drop_first());
    }
}

proof fn lemma_precedes_transitive(a: Seq<char>, b: Seq<char>, c: Seq<char>)
    requires
        precedes(a, b),
        precedes(b, c),
    ensures
        precedes(a, c),
    decreases a.len(),
{
    if a.len() > 0 && a[0] == b[0] && b[0] == c[0] {
        lemma_precedes_transitive(a.drop_first(), b.drop_first(), c.drop_first());
    }
}

proof fn lemma_precedes_total(a: Seq<char>, b: Seq<char>)
    ensures
        a == b || precedes(a, b) || precedes(b, a),
    decreases a.len(),
{
    if a.len() == 0 || b.len() == 0 {
        if a.len() == b.len() {
            assert(a =~= b);
        }
    } else if a[0] == b[0] {
        lemma_precedes_total(a.drop_first(), b.drop_first());
        if a.drop_first() == b.drop_first() {
            assert forall|i: int| 0 <= i < a.len() implies a[i] == b[i] by {
                if i > 0 {
                    assert(a.drop_first()[i - 1] == b.drop_first()[i - 1]);
                }
            }
            assert(a.drop_first().len() == b.drop_first().len());
            assert(a =~= b);
        }
    } else {
        assert(a[0] as int != b[0] as int);
    }
}

fn char_before(c: char, d: char) -> (r: bool)
    ensures
        r == ((c as int) < (d as int)),
{
    (c as u32) < (d as u32)
}

/// Whether `a` comes before `b`.
fn comes_before(a: &str, b: &str) -> (r: bool)
    ensures
        r == precedes(a@, b@),
{
    let x: Vec<char> = chars_of(a);
    let y: Vec<char> = chars_of(b);
    let mut i: usize = 0;
    assert(a@.skip(0) =~= a@);
    assert(b@.skip(0) =~= b@);
    while i < x.len() && i < y.len()
        invariant
            x@ == a@,
            y@ == b@,
            i <= x@.len(),
            i <= y@.len(),
            precedes(a@, b@) == precedes(a@.skip(i as int), b@.skip(i as int)),
        decreases x@.len() - i,
    {
        let c: char = x[i];
        let d: char = y[i];
        if c != d {
            return char_before(c, d);
        }
        assert(a@.skip(i as int).drop_first() =~= a@.skip(i + 1));
        assert(b@.skip(i as int).drop_first() =~= b@.skip(i + 1));
        i += 1;
    }
    i < y.len()
}

/// In-memory filesystem. Models the cases that matter: growth (`append`, same inode),
/// rotation (`rotate`, new inode) and truncation (`put` with shorter content, same
/// inode). The device is always 1.
pub struct MemFs {
    table: Table,
}

/// The text of a string as bytes.
pub open spec fn utf8(s: Seq<char>) -> Seq<u8> {
    vstd::utf8::encode_utf8(s)
}

impl View for MemFs {
    type V = Map<Seq<char>, (u64, Seq<u8>)>;

    /// Inode and contents of each file, by path.
    closed spec fn view(&self) -> Map<Seq<char>, (u64, Seq<u8>)> {
        self.table@
    }
}

impl Default for MemFs {
    fn default() -> (fs: MemFs)
        ensures
            fs@ == Map::<Seq<char>, (u64, Seq<u8>)>::empty(),
            fs.next_inode() == 0,
    {
        MemFs { table: Table::empty(0) }
    }
}

impl MemFs {
    #[verifier::type_invariant]
    closed spec fn inv(&self) -> bool {
        self.table.wf()
    }

    /// The paths, in ascending order.
    pub closed spec fn paths(&self) -> Seq<Seq<char>> {
        self.table.paths()
    }

    /// The inode that the next new file gets.
    pub closed spec fn next_inode(&self) -> u64 {
        self.table.next_ino
    }

    /// An empty filesystem.
    pub fn new() -> (fs: MemFs)
        ensures
            fs@ == Map::<Seq<char>, (u64, Seq<u8>)>::empty(),
            fs.next_inode() == 1,
    {
        MemFs { table: Table::empty(1) }
    }

    /// Sets the whole content. Keeps the inode if the file exists (in-place rewrite:
    /// shorter content models a truncation); allocates a new inode if it is new.
    pub fn put(&mut self, path: &str, contents: &str)
        requires
            old(self)@.dom().contains(path@) || old(self).next_inode() < u64::MAX,
        ensures
            old(self)@.dom().contains(path@) ==> final(self)@ == old(self)@.insert(
                path@,
                (old(self)@[path@].0, utf8(contents@)),
            ) && final(self).next_inode() == old(self).next_inode(),
            !old(self)@.dom().contains(path@) ==> final(self)@ == old(self)@.insert(
                path@,
                (old(self).next_inode(), utf8(contents@)),
            ) && final(self).next_inode() == old(self).next_inode() + 1,
    {
        proof {
            use_type_invariant(&*self);
        }
        let mut table = Table::empty(0);
        std::mem::swap(&mut table, &mut self.table);
        table.put(path, contents);
        self.table = table;
    }

    /// Appends, keeping the inode (a log growing in place). A new file is created.
    pub fn append(&mut self, path: &str, contents: &str)
        requires
            old(self)@.dom().contains(path@) || old(self).next_inode() < u64::MAX,
        ensures
            old(self)@.dom().contains(path@) ==> final(self)@ == old(self)@.insert(
                path@,
                (old(self)@[path@].0, old(self)@[path@].1 + utf8(contents@)),
            ) && final(self).next_inode() == old(self).next_inode(),
            !old(self)@.dom().contains(path@) ==> final(self)@ == old(self)@.insert(
                path@,
                (old(self).next_inode(), utf8(contents@)),
            ) && final(self).next_inode() == old(self).next_inode() + 1,
    {
        proof {
            use_type_invariant(&*self);
        }
        let mut table = Table::empty(0);
        std::mem::swap(&mut table, &mut self.table);
        table.append(path, contents);
        self.table = table;
    }

    /// Replaces the file with a fresh inode (the old inode vanishes: models a delete and
    /// recreate, where the prior content is gone entirely).
    pub fn rotate(&mut self, path: &str, contents: &str)
        requires
            old(self).next_inode() < u64::MAX,
        ensures
            final(self)@ == old(self)@.insert(path@, (old(self).next_inode(), utf8(contents@))),
            final(self).next_inode() == old(self).next_inode() + 1,
            forall|p: Seq<char>|
                old(self)@.dom().contains(p) ==> (#[trigger] old(self)@[p]).0
                    != final(self)@[path@].0,
    {
        proof {
            use_type_invariant(&*self);
            assert forall|p: Seq<char>| self@.dom().contains(p) implies (#[trigger] self@[p]).0
                < self.next_inode() by {
                self.table.lemma_in_paths(p);
                self.table.lemma_index(self.table.index_of(p));
            }
        }
        let mut table = Table::empty(0);
        std::mem::swap(&mut table, &mut self.table);
        table.rotate(path, contents);
        self.table = table;
    }

    /// Moves an entry to a new path, keeping its inode (models a real log rotation: the
    /// old file is renamed away but still exists, e.g. `Player-prev.log`).
    pub fn rename(&mut self, from: &str, to: &str)
        ensures
            final(self).next_inode() == old(self).next_inode(),
            final(self)@ == if old(self)@.dom().contains(from@) {
                old(self)@.remove(from@).insert(to@, old(self)@[from@])
            } else {
                old(self)@
            },
    {
        proof {
            use_type_invariant(&*self);
        }
        let mut table = Table::empty(0);
        std::mem::swap(&mut table, &mut self.table);
        table.rename(from, to);
        self.table = table;
    }

    /// Deletes a file.
    pub fn remove(&mut self, path: &str)
        ensures
            final(self).next_inode() == old(self).next_inode(),
            final(self)@ == old(self)@.remove(path@),
    {
        proof {
            use_type_invariant(&*self);
        }
        let mut table = Table::empty(0);
        std::mem::swap(&mut table, &mut self.table);
        table.remove(path);
        self.table = table;
    }
}

/// A file of the in-memory filesystem.
struct MemFile {
    path: String,
    ino: u64,
    bytes: Vec<u8>,
}

/// The files of the in-memory filesystem, sorted by path.
struct Table {
    files: Vec<MemFile>,
    next_ino: u64,
}

impl Table {
    /// The paths, in ascending order.
    spec fn paths(&self) -> Seq<Seq<char>> {
        Seq::new(self.files@.len(), |i: int| self.files@[i].path@)
    }

    /// The position of `path` among the paths.
    spec fn index_of(&self, path: Seq<char>) -> int {
        choose|i: int| 0 <= i < self.files@.len() && #[trigger] self.files@[i].path@ == path
    }

    /// Paths ascend, so that no path occurs twice, and no two files share an inode.
    spec fn wf(&self) -> bool {
        &&& forall|i: int, j: int|
            0 <= i < j < self.files@.len() ==> precedes(
                #[trigger] self.files@[i].path@,
                #[trigger] self.files@[j].path@,
            )
        &&& forall|i: int|
            0 <= i < self.files@.len() ==> (#[trigger] self.files@[i]).ino < self.next_ino
        &&& forall|i: int, j: int|
            0 <= i < j < self.files@.len() ==> (#[trigger] self.files@[i]).ino != (
            #[trigger] self.files@[j]).ino
    }

    proof fn lemma_index(&self, i: int)
        requires
            self.wf(),
            0 <= i < self.files@.len(),
        ensures
            self.index_of(self.files@[i].path@) == i,
            self@.dom().contains(self.files@[i].path@),
            self@[self.files@[i].path@] == (self.files@[i].ino, self.files@[i].bytes@),
    {
        let p = self.files@[i].path@;
        let k = self.index_of(p);
        assert(0 <= k < self.files@.len() && self.files@[k].path@ == p);
        lemma_precedes_irreflexive(p);
        assert(self.paths()[i] == p);
        assert(self.paths().contains(p));
    }

    proof fn lemma_in_paths(&self, p: Seq<char>)
        requires
            self@.dom().contains(p),
        ensures
            0 <= self.index_of(p) < self.files@.len(),
            self.files@[self.index_of(p)].path@ == p,
    {
        let k = choose|k: int| 0 <= k < self.paths().len() && self.paths()[k] == p;
        assert(self.files@[k].path@ == p);
    }
}

impl View for Table {
    type V = Map<Seq<char>, (u64, Seq<u8>)>;

    closed spec fn view(&self) -> Map<Seq<char>, (u64, Seq<u8>)> {
        Map::new(
            |p: Seq<char>| self.paths().contains(p),
            |p: Seq<char>|
                {
                    let f = self.files@[self.index_of(p)];
                    (f.ino, f.bytes@)
                },
        )
    }
}

impl Table {
    fn empty(next_ino: u64) -> (table: Table)
        ensures
            table.wf(),
            table@ == Map::<Seq<char>, (u64, Seq<u8>)>::empty(),
            table.next_ino == next_ino,
    {
        let table = Table { files: Vec::new(), next_ino };
        assert(table@ =~= Map::empty());
        table
    }

    /// Hands out a new inode.
    fn alloc_ino(&mut self) -> (ino: u64)
        requires
            old(self).next_ino < u64::MAX,
        ensures
            ino == old(self).next_ino,
            final(self).next_ino == ino + 1,
            final(self).files == old(self).files,
    {
        let ino: u64 = self.next_ino;
        self.next_ino = ino + 1;
        ino
    }

    /// The position of `path` among the files.
    fn find(&self, path: &str) -> (at: Option<usize>)
        requires
            self.wf(),
        ensures
            match at {
                Some(i) => i < self.files@.len() && self.files@[i as int].path@ == path@
                    && self@.dom().contains(path@) && self@[path@] == (
                    self.files@[i as int].ino,
                    self.files@[i as int].bytes@,
                ),
                None => !self@.dom().contains(path@),
            },
    {
        let mut i: usize = 0;
        while i < self.files.len()
            invariant
                self.wf(),
                i <= self.files@.len(),
                forall|k: int| 0 <= k < i ==> self.files@[k].path@ != path@,
            decreases self.files@.len() - i,
        {
            if str_eq(self.files[i].path.as_str(), path) {
                proof {
                    self.lemma_index(i as int);
                }
                return Some(i);
            }
            i += 1;
        }
        proof {
            if self@.dom().contains(path@) {
                self.lemma_in_paths(path@);
            }
        }
        None
    }

    /// The position at which `path` belongs.
    fn slot(&self, path: &str) -> (at: usize)
        requires
            self.wf(),
            !self@.dom().contains(path@),
        ensures
            at <= self.files@.len(),
            forall|k: int| 0 <= k < at ==> precedes(#[trigger] self.files@[k].path@, path@),
            forall|k: int|
                at <= k < self.files@.len() ==> precedes(path@, #[trigger] self.files@[k].path@),
    {
        let mut i: usize = 0;
        while i < self.files.len() && comes_before(self.files[i].path.as_str(), path)
            invariant
                i <= self.files@.len(),
                forall|k: int| 0 <= k < i ==> precedes(#[trigger] self.files@[k].path@, path@),
            decreases self.files@.len() - i,
        {
            i += 1;
        }
        proof {
            assert forall|k: int| i <= k < self.files@.len() implies precedes(
                path@,
                #[trigger] self.files@[k].path@,
            ) by {
                let first = self.files@[i as int].path@;
                self.lemma_index(i as int);
                lemma_precedes_total(first, path@);
                if k > i {
                    lemma_precedes_transitive(path@, first, self.files@[k].path@);
                }
            }
        }
        i
    }

    /// Adds a file at a path that has none.
    fn add_file(&mut self, path: &str, ino: u64, bytes: Vec<u8>)
        requires
            old(self).wf(),
            !old(self)@.dom().contains(path@),
            ino < old(self).next_ino,
            forall|p: Seq<char>|
                old(self)@.dom().contains(p) ==> (#[trigger] old(self)@[p]).0 != ino,
        ensures
            final(self).wf(),
            final(self).next_ino == old(self).next_ino,
            final(self)@ == old(self)@.insert(path@, (ino, bytes@)),
    {
        let at: usize = self.slot(path);
        let file = MemFile { path: path.to_owned(), ino, bytes };
        self.files.insert(at, file);
        proof {
            let before = old(self).files@;
            let after = self.files@;
            assert(after =~= before.insert(at as int, file));
            assert forall|i: int| 0 <= i < before.len() implies (#[trigger] before[i]).ino != ino by {
                old(self).lemma_index(i);
            }
            assert forall|i: int, j: int| 0 <= i < j < after.len() implies precedes(
                #[trigger] after[i].path@,
                #[trigger] after[j].path@,
            ) by {
                let i0 = if i < at { i } else { i - 1 };
                let j0 = if j < at { j } else { j - 1 };
                assert(i == at || after[i] == before[i0]);
                assert(j == at || after[j] == before[j0]);
            }
            assert forall|i: int, j: int| 0 <= i < j < after.len() implies (
            #[trigger] after[i]).ino != (#[trigger] after[j]).ino by {
                let i0 = if i < at { i } else { i - 1 };
                let j0 = if j < at { j } else { j - 1 };
                assert(i == at || after[i] == before[i0]);
                assert(j == at || after[j] == before[j0]);
            }
            assert(self.wf());
            let expected = old(self)@.insert(path@, (ino, bytes@));
            assert forall|p: Seq<char>| self@.dom().contains(p) == #[trigger] expected.dom().contains(
                p,
            ) && (self@.dom().contains(p) ==> self@[p] == expected[p]) by {
                if self@.dom().contains(p) {
                    self.lemma_in_paths(p);
                    let k = self.index_of(p);
                    self.lemma_index(k);
                    if k != at {
                        let k0 = if k < at { k } else { k - 1 };
                        assert(after[k] == before[k0]);
                        old(self).lemma_index(k0);
                    }
                }
                if expected.dom().contains(p) {
                    if p == path@ {
                        self.lemma_index(at as int);
                    } else {
                        old(self).lemma_in_paths(p);
                        let k0 = old(self).index_of(p);
                        let k = if k0 < at { k0 } else { k0 + 1 };
                        assert(after[k] == before[k0]);
                        self.lemma_index(k);
                    }
                }
            }
            assert(self@ =~= expected);
        }
    }

    /// Takes a file away, and gives back its inode and contents.
    fn take_file(&mut self, at: usize) -> (file: MemFile)
        requires
            old(self).wf(),
            at < old(self).files@.len(),
        ensures
            final(self).wf(),
            final(self).next_ino == old(self).next_ino,
            file == old(self).files@[at as int],
            final(self)@ == old(self)@.remove(file.path@),
            file.ino < old(self).next_ino,
            forall|p: Seq<char>|
                final(self)@.dom().contains(p) ==> (#[trigger] final(self)@[p]).0 != file.ino,
    {
        let file = self.files.remove(at);
        proof {
            let before = old(self).files@;
            let after = self.files@;
            assert(after =~= before.remove(at as int));
            assert forall|i: int| 0 <= i < after.len() implies #[trigger] after[i] == before[if i < at {
                i
            } else {
                i + 1
            }] by {}
            assert(self.wf());
            let expected = old(self)@.remove(file.path@);
            assert forall|p: Seq<char>| self@.dom().contains(p) == #[trigger] expected.dom().contains(
                p,
            ) && (self@.dom().contains(p) ==> self@[p] == expected[p]) by {
                if self@.dom().contains(p) {
                    self.lemma_in_paths(p);
                    let k = self.index_of(p);
                    self.lemma_index(k);
                    let k0 = if k < at { k } else { k + 1 };
                    assert(after[k] == before[k0]);
                    old(self).lemma_index(k0);
                    old(self).lemma_index(at as int);
                }
                if expected.dom().contains(p) {
                    old(self).lemma_in_paths(p);
                    let k0 = old(self).index_of(p);
                    let k = if k0 < at { k0 } else { k0 - 1 };
                    assert(after[k] == before[k0]);
                    self.lemma_index(k);
                }
            }
            assert(self@ =~= expected);
            assert forall|p: Seq<char>| self@.dom().contains(p) implies (#[trigger] self@[p]).0
                != file.ino by {
                self.lemma_in_paths(p);
                let k = self.index_of(p);
                self.lemma_index(k);
                assert(after[k] == before[if k < at { k } else { k + 1 }]);
            }
        }
        file
    }

    fn put(&mut self, path: &str, contents: &str)
        requires
            old(self).wf(),
            old(self)@.dom().contains(path@) || old(self).next_ino < u64::MAX,
        ensures
            final(self).wf(),
            old(self)@.dom().contains(path@) ==> final(self)@ == old(self)@.insert(
                path@,
                (old(self)@[path@].0, utf8(contents@)),
            ) && final(self).next_ino == old(self).next_ino,
            !old(self)@.dom().contains(path@) ==> final(self)@ == old(self)@.insert(
                path@,
                (old(self).next_ino, utf8(contents@)),
            ) && final(self).next_ino == old(self).next_ino + 1,
    {
        let mut bytes: Vec<u8> = Vec::new();
        push_bytes(&mut bytes, contents.as_bytes());
        assert(bytes@ =~= utf8(contents@));
        match self.find(path) {
            Some(at) => {
                let file = self.take_file(at);
                self.add_file(path, file.ino, bytes);
                assert(self@ =~= old(self)@.insert(path@, (file.ino, bytes@)));
            },
            None => {
                let ino: u64 = self.alloc_ino();
                assert(self@ =~= old(self)@);
                self.add_file(path, ino, bytes);
            },
        }
    }

    fn append(&mut self, path: &str, contents: &str)
        requires
            old(self).wf(),
            old(self)@.dom().contains(path@) || old(self).next_ino < u64::MAX,
        ensures
            final(self).wf(),
            old(self)@.dom().contains(path@) ==> final(self)@ == old(self)@.insert(
                path@,
                (old(self)@[path@].0, old(self)@[path@].1 + utf8(contents@)),
            ) && final(self).next_ino == old(self).next_ino,
            !old(self)@.dom().contains(path@) ==> final(self)@ == old(self)@.insert(
                path@,
                (old(self).next_ino, utf8(contents@)),
            ) && final(self).next_ino == old(self).next_ino + 1,
    {
        match self.find(path) {
            Some(at) => {
                let file = self.take_file(at);
                let ino: u64 = file.ino;
                let mut bytes: Vec<u8> = file.bytes;
                push_bytes(&mut bytes, contents.as_bytes());
                self.add_file(path, ino, bytes);
                assert(self@ =~= old(self)@.insert(path@, (ino, bytes@)));
            },
            None => self.put(path, contents),
        }
    }

    fn rotate(&mut self, path: &str, contents: &str)
        requires
            old(self).wf(),
            old(self).next_ino < u64::MAX,
        ensures
            final(self).wf(),
            final(self)@ == old(self)@.insert(path@, (old(self).next_ino, utf8(contents@))),
            final(self).next_ino == old(self).next_ino + 1,
    {
        self.remove(path);
        self.put(path, contents);
        assert(self@ =~= old(self)@.insert(path@, (old(self).next_ino, utf8(contents@))));
    }

    fn rename(&mut self, from: &str, to: &str)
        requires
            old(self).wf(),
        ensures
            final(self).wf(),
            final(self).next_ino == old(self).next_ino,
            final(self)@ == if old(self)@.dom().contains(from@) {
                old(self)@.remove(from@).insert(to@, old(self)@[from@])
            } else {
                old(self)@
            },
    {
        if let Some(at) = self.find(from) {
            let file = self.take_file(at);
            let ghost rest = self@;
            self.remove(to);
            self.add_file(to, file.ino, file.bytes);
            assert(self@ =~= rest.insert(to@, (file.ino, file.bytes@)));
        }
    }

    fn remove(&mut self, path: &str)
        requires
            old(self).wf(),
        ensures
            final(self).wf(),
            final(self).next_ino == old(self).next_ino,
            final(self)@ == old(self)@.remove(path@),
    {
        match self.find(path) {
            Some(at) => {
                let _ = self.take_file(at);
            },
            None => {
                assert(old(self)@.remove(path@) =~= old(self)@);
            },
        }
    }
}

/// The paths of `all` that stand in directory `dir`.
pub open spec fn in_directory(all: Seq<Seq<char>>, dir: Seq<char>) -> Seq<Seq<char>> {
    all.filter(|p: Seq<char>| path::directory(p) == dir)
}

impl Fs for MemFs {
    open spec fn stat_of(&self, path: Seq<char>) -> Option<Stat> {
        if self@.dom().contains(path) {
            Some(Stat { dev: 1, ino: self@[path].0, size: self@[path].1.len() as u64 })
        } else {
            None
        }
    }

    open spec fn bytes_of(&self, path: Seq<char>) -> Option<Seq<u8>> {
        if self@.dom().contains(path) {
            Some(self@[path].1)
        } else {
            None
        }
    }

    open spec fn siblings_of(&self, path: Seq<char>) -> Seq<Seq<char>> {
        in_directory(self.paths(), path::directory(path))
    }

    fn stat(&self, path: &str) -> (st: Option<Stat>) {
        proof {
            use_type_invariant(&*self);
        }
        match self.table.find(path) {
            Some(at) => {
                let file = &self.table.files[at];
                Some(Stat { dev: 1, ino: file.ino, size: file.bytes.len() as u64 })
            },
            None => None,
        }
    }

    fn read(&self, path: &str) -> (bytes: Option<Vec<u8>>) {
        proof {
            use_type_invariant(&*self);
        }
        match self.table.find(path) {
            Some(at) => {
                let mut bytes: Vec<u8> = Vec::new();
                push_bytes(&mut bytes, self.table.files[at].bytes.as_slice());
                assert(bytes@ =~= self@[path@].1);
                Some(bytes)
            },
            None => None,
        }
    }

    fn siblings(&self, path: &str) -> (paths: Vec<String>)
        ensures
            forall|p: Seq<char>|
                state::names_view(paths@).contains(p) <==> self@.dom().contains(p)
                    && path::directory(p) == path::directory(path@),
            forall|i: int, j: int|
                0 <= i < j < paths@.len() ==> precedes(#[trigger] paths@[i]@, #[trigger] paths@[j]@),
    {
        proof {
            use_type_invariant(&*self);
        }
        let dir: &str = dir_of(path);
        let mut paths: Vec<String> = Vec::new();
        let mut i: usize = 0;
        let ghost all = self.paths();
        let ghost pred = |p: Seq<char>| path::directory(p) == dir@;
        while i < self.table.files.len()
            invariant
                self.table.wf(),
                i <= self.table.files@.len(),
                all == self.paths(),
                all.len() == self.table.files@.len(),
                pred == (|p: Seq<char>| path::directory(p) == dir@),
                state::names_view(paths@) == all.take(i as int).filter(pred),
                forall|a: int| 0 <= a < paths@.len() ==> exists|k: int|
                    0 <= k < i && self.table.files@[k].path@ == #[trigger] paths@[a]@,
                forall|a: int, b: int|
                    0 <= a < b < paths@.len() ==> precedes(
                        #[trigger] paths@[a]@,
                        #[trigger] paths@[b]@,
                    ),
            decreases self.table.files@.len() - i,
        {
            let file = &self.table.files[i];
            let ghost old_paths = paths@;
            proof {
                reveal(Seq::filter);
                assert(all.take(i + 1).drop_last() =~= all.take(i as int));
                assert(all.take(i + 1).last() == file.path@);
            }
            if str_eq(dir_of(file.path.as_str()), dir) {
                paths.push(file.path.clone());
                assert(state::names_view(paths@) =~= state::names_view(old_paths).push(file.path@));
                assert forall|a: int| 0 <= a < paths@.len() implies exists|k: int|
                    0 <= k < i + 1 && self.table.files@[k].path@ == #[trigger] paths@[a]@ by {
                    if a < old_paths.len() {
                        assert(old_paths[a] == paths@[a]);
                    } else {
                        assert(self.table.files@[i as int].path@ == paths@[a]@);
                    }
                }
                assert forall|a: int, b: int| 0 <= a < b < paths@.len() implies precedes(
                    #[trigger] paths@[a]@,
                    #[trigger] paths@[b]@,
                ) by {
                    assert(old_paths[a] == paths@[a]);
                    if b < old_paths.len() {
                        assert(old_paths[b] == paths@[b]);
                    }
                }
            }
            i += 1;
        }
        proof {
            assert(all.take(i as int) =~= all);
            assert forall|p: Seq<char>|
                state::names_view(paths@).contains(p) <==> self@.dom().contains(p)
                    && path::directory(p) == path::directory(path@) by {
                let found = all.filter(pred);
                if found.contains(p) {
                    let k = choose|k: int| 0 <= k < found.len() && found[k] == p;
                    all.lemma_filter_pred(pred, k);
                    all.lemma_filter_contains_rev(pred, p);
                    let j = choose|j: int| 0 <= j < all.len() && all[j] == p;
                    self.table.lemma_index(j);
                }
                if self@.dom().contains(p) && path::directory(p) == dir@ {
                    self.table.lemma_in_paths(p);
                    let k = self.table.index_of(p);
                    assert(all[k] == p);
                    all.lemma_filter_contains(pred, k);
                }
            }
        }
        paths
    }
}

} // verus!
