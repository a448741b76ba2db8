# logsnap

Stateful, cursor-based log snapshotting for iterative debugging, as a verified library with a
command line program around it.

A session watches log files and remembers, for each, how far it was read. `diff` shows exactly
the lines that appeared since, in every file; `commit` moves past them and records a checkpoint,
which `diff --in` shows again and `undo` reverts. Files are known by device and inode, so a
rotated or truncated log is noticed and read from its start. A line without its newline is never
committed.

## Layout

- `src/` is the library. Every function states what it returns or changes, and Verus proves it.
  - `cursor`, `pending`: where to read from, and which complete lines are new.
  - `commands`: `open`, `show`, `advance`, `commit`, `undo`, `squash`, `show_at`, `list`,
    `status`, `clear`, following, and the decisions of a commit that waits.
  - `fs`, `memfs`: the filesystem as an observation, and one in memory.
  - `session`, `path`, `duration`, `text`, `color`, `clock`, `request`, `complete`, `viewer`:
    what the programs around the library need.
  - `laws`: what holds of the library as a whole, such as that undoing a commit puts every file
    back, that showing right after a commit prints nothing, that a checkpoint gives back byte for
    byte what was committed, and that nothing is ever missed or shown twice.
- `tests/` runs the library on an in-memory filesystem.
- `app/` is the command line program: arguments, the real filesystem, the session file, inotify.
  `app/ui/` is a read-only desktop viewer.

Two things are not proved but believed: that the local time which the `jiff` crate formats has
the form `HH:MM:SS` (`src/clock.rs`), and that the real filesystem in `app/os.rs` answers the same
question the same way within one observation (it remembers its answers).
