//! The filesystem as the commands see it.

use vstd::prelude::*;

verus! {

/// Identity (device and inode) and size of a file.
#[derive(Clone, Copy)]
pub struct Stat {
    pub dev: u64,
    pub ino: u64,
    pub size: u64,
}

/// An observation of a filesystem. A value answers every question about a path the same
/// way each time; what changes on disk is seen through a later observation. Nothing
/// relates the size that `stat` reports to the bytes that `read` returns: the file may
/// have grown or shrunk in between.
///
/// What is proved through this trait holds of implementations that answer as promised. One
/// that is not verified needs no definition of what it answers.
pub trait Fs {
    /// Identity and size of the file at `path`, if there is one.
    closed spec fn stat_of(&self, path: Seq<char>) -> Option<Stat> {
        arbitrary()
    }

    /// Contents of the file at `path`, if it can be read.
    closed spec fn bytes_of(&self, path: Seq<char>) -> Option<Seq<u8>> {
        arbitrary()
    }

    /// The paths in the directory of `path`.
    closed spec fn siblings_of(&self, path: Seq<char>) -> Seq<Seq<char>> {
        arbitrary()
    }

    /// Identifies a file (device and inode, for rotation detection).
    fn stat(&self, path: &str) -> (st: Option<Stat>)
        ensures
            st == self.stat_of(path@),
    ;

    /// The whole current contents of a file (cursor math then happens on the bytes).
    fn read(&self, path: &str) -> (bytes: Option<Vec<u8>>)
        ensures
            (bytes is Some) == (self.bytes_of(path@) is Some),
            bytes is Some ==> bytes->0@ == self.bytes_of(path@)->0,
    ;

    /// The paths in the same directory, so that a rotated-away file can be found again by
    /// its identity.
    fn siblings(&self, path: &str) -> (paths: Vec<String>)
        ensures
            crate::state::names_view(paths@) == self.siblings_of(path@),
    ;
}

/// What a read of `path` yields, an unreadable file counting as empty.
pub open spec fn contents<F: Fs>(fs: &F, path: Seq<char>) -> Seq<u8> {
    match fs.bytes_of(path) {
        Some(bytes) => bytes,
        None => Seq::empty(),
    }
}

/// Reads a file; an unreadable one counts as empty.
pub fn read_or_empty<F: Fs>(fs: &F, path: &str) -> (bytes: Vec<u8>)
    ensures
        bytes@ == contents(fs, path@),
{
    match fs.read(path) {
        Some(bytes) => bytes,
        None => Vec::new(),
    }
}

} // verus!
