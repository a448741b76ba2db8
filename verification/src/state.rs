//! The session: per-file cursors, the undo stack and the checkpoint history.

use vstd::prelude::*;

verus! {

/// A watched file.
#[derive(Clone, Default)]
pub struct FileState {
    pub path: String,
    pub dev: u64,
    /// Inode of the file as last seen; 0 while it was never seen.
    pub ino: u64,
    /// Byte offset of the committed read position (start of the next unseen line).
    pub cursor: u64,
}

/// One per file, captured before an `advance`, so that `undo` can restore it.
#[derive(Clone, Copy)]
pub struct Snap {
    pub cursor: u64,
    pub dev: u64,
    pub ino: u64,
}

/// What a checkpoint recorded of one file: the committed byte range, the identity it
/// was read from, and the read position that it replaced.
pub struct CommitEntry {
    pub path: String,
    pub from: u64,
    pub to: u64,
    pub dev: u64,
    pub ino: u64,
    pub lines: usize,
    pub prev_cursor: u64,
    pub prev_dev: u64,
    pub prev_ino: u64,
}

/// A checkpoint.
pub struct Commit {
    pub id: u32,
    /// Local time of day at which it was made, `HH:MM:SS`.
    pub created_at: Option<String>,
    pub message: Option<String>,
    pub entries: Vec<CommitEntry>,
    /// How many snapshots the undo stack held when it was made. The checkpoint is the
    /// newest step of the session as long as the stack holds no more than that.
    pub depth: usize,
}

#[derive(Default)]
pub struct State {
    /// Open files, in the order they were passed to `open`.
    pub files: Vec<FileState>,
    /// Stack of pre-advance snapshots (newest last). Each is one `Snap` per file.
    pub undo: Vec<Vec<Snap>>,
    /// Id of the next checkpoint (0 stands for 1).
    pub next_id: u32,
    /// Checkpoints, oldest first.
    pub history: Vec<Commit>,
}

#[verifier::ext_equal]
pub struct FileView {
    pub path: Seq<char>,
    pub dev: u64,
    pub ino: u64,
    pub cursor: u64,
}

#[verifier::ext_equal]
pub struct EntryView {
    pub path: Seq<char>,
    pub from: u64,
    pub to: u64,
    pub dev: u64,
    pub ino: u64,
    pub lines: usize,
    pub prev_cursor: u64,
    pub prev_dev: u64,
    pub prev_ino: u64,
}

#[verifier::ext_equal]
pub struct CommitView {
    pub id: u32,
    pub created_at: Option<Seq<char>>,
    pub message: Option<Seq<char>>,
    pub entries: Seq<EntryView>,
    pub depth: usize,
}

#[verifier::ext_equal]
pub struct StateView {
    pub files: Seq<FileView>,
    pub undo: Seq<Seq<Snap>>,
    pub next_id: u32,
    pub history: Seq<CommitView>,
}

impl View for FileState {
    type V = FileView;

    open spec fn view(&self) -> FileView {
        FileView { path: self.path@, dev: self.dev, ino: self.ino, cursor: self.cursor }
    }
}

impl View for CommitEntry {
    type V = EntryView;

    open spec fn view(&self) -> EntryView {
        EntryView {
            path: self.path@,
            from: self.from,
            to: self.to,
            dev: self.dev,
            ino: self.ino,
            lines: self.lines,
            prev_cursor: self.prev_cursor,
            prev_dev: self.prev_dev,
            prev_ino: self.prev_ino,
        }
    }
}

/// The text of an optional string.
pub open spec fn text_of(s: Option<String>) -> Option<Seq<char>> {
    match s {
        Some(t) => Some(t@),
        None => None,
    }
}

pub open spec fn files_view(v: Seq<FileState>) -> Seq<FileView> {
    Seq::new(v.len(), |i: int| v[i]@)
}

pub open spec fn entries_view(v: Seq<CommitEntry>) -> Seq<EntryView> {
    Seq::new(v.len(), |i: int| v[i]@)
}

pub open spec fn history_view(v: Seq<Commit>) -> Seq<CommitView> {
    Seq::new(v.len(), |i: int| v[i]@)
}

pub open spec fn undo_view(v: Seq<Vec<Snap>>) -> Seq<Seq<Snap>> {
    Seq::new(v.len(), |i: int| v[i]@)
}

/// The texts of a list of strings.
pub open spec fn names_view(v: Seq<String>) -> Seq<Seq<char>> {
    Seq::new(v.len(), |i: int| v[i]@)
}

impl View for Commit {
    type V = CommitView;

    open spec fn view(&self) -> CommitView {
        CommitView {
            id: self.id,
            created_at: text_of(self.created_at),
            message: text_of(self.message),
            entries: entries_view(self.entries@),
            depth: self.depth,
        }
    }
}

impl View for State {
    type V = StateView;

    open spec fn view(&self) -> StateView {
        StateView {
            files: files_view(self.files@),
            undo: undo_view(self.undo@),
            next_id: self.next_id,
            history: history_view(self.history@),
        }
    }
}

} // verus!
