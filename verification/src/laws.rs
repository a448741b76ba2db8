//! What holds of the library as a whole.

pub mod committing;
pub mod history;
pub mod lines;
pub mod naming;
pub mod observing;
pub mod paths;
pub mod reading;
pub mod recalling;
pub mod reporting;
pub mod selecting;
pub mod showing;
pub mod squashing;
pub mod starting;
pub mod stepping;
pub mod undoing;
pub mod viewing;
pub mod waiting;
pub mod wording;
