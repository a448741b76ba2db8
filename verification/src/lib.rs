//! Cursor-based log snapshotting: per-file read positions over growing, rotating and
//! shrinking logs, with checkpoints that can be recalled and undone.

pub mod clock;
pub mod color;
pub mod commands;
pub mod complete;
pub mod cursor;
pub mod duration;
pub mod fs;
pub mod laws;
pub mod memfs;
pub mod path;
pub mod pending;
pub mod request;
pub mod session;
pub mod state;
pub mod text;
pub mod viewer;

pub use clock::now_hms;
pub use color::Style;
pub use commands::commit::{advance, commit, commit_now, MAX_HISTORY};
pub use commands::follow::follow;
pub use commands::open::{clear, open};
pub use commands::recall::{find_commit, show_at, show_at_reports};
pub use commands::select::select;
pub use commands::show::{show, show_reports, Report};
pub use commands::squash::squash;
pub use commands::status::{list, status};
pub use commands::undo::undo;
pub use commands::wait::{poll, report_settled, start_wait, wait_step, Mark, Plan, Step, Waiting};
pub use complete::{checkpoint_refs, session_files};
pub use cursor::{line_stats, region, resolve, Event, Region};
pub use duration::{parse_duration, Unit};
pub use fs::{Fs, Stat};
pub use memfs::MemFs;
pub use path::{dir_of, path_matches, short};
pub use pending::{event_note, Pending};
pub use request::{commit_request, diff_request, Diff};
pub use session::{abspath, state_path};
pub use state::{Commit, CommitEntry, FileState, Snap, State};
pub use viewer::{
    banner, checkpoint_labels, display_lines, note_for, placeholder, reselect, slice_bytes, Snapshot,
};
