//! The commands, over an observed filesystem. Log *content* goes to `out` and
//! headers and warnings go to `err`, so that a filter on `out` sees only content.

pub mod commit;
pub mod follow;
pub mod moving;
pub mod open;
pub mod recall;
pub mod select;
pub mod show;
pub mod squash;
pub mod status;
pub mod undo;
pub mod wait;
