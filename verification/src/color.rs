//! Minimal ANSI color helpers. Color is for stderr (headers and warnings) only; content
//! is never colored.

use vstd::prelude::*;

verus! {

pub const DIM: &'static str = "\x1b[2m";

pub const BOLD: &'static str = "\x1b[1m";

pub const CYAN: &'static str = "\x1b[36m";

pub const YELLOW: &'static str = "\x1b[33m";

pub const RED: &'static str = "\x1b[31m";

pub const RESET: &'static str = "\x1b[0m";

/// A coloring context: either on (apply ANSI codes) or off (pass through).
#[derive(Clone, Copy)]
pub struct Style {
    color: bool,
}

impl Style {
    /// Whether ANSI codes are applied.
    pub closed spec fn colored(self) -> bool {
        self.color
    }

    /// `s` between the code and a reset, or as it is where color is off.
    pub open spec fn painted(self, code: Seq<char>, s: Seq<char>) -> Seq<char> {
        if self.colored() {
            code + s + RESET@
        } else {
            s
        }
    }

    pub fn new(color: bool) -> (style: Style)
        ensures
            style.colored() == color,
    {
        Style { color }
    }

    fn paint(self, code: &str, s: &str) -> (t: String)
        ensures
            t@ == self.painted(code@, s@),
    {
        if self.color {
            let mut t: String = code.to_owned();
            t.append(s);
            t.append(RESET);
            t
        } else {
            s.to_owned()
        }
    }

    /// Dim/grey: for headers, meta info.
    pub fn dim(self, s: &str) -> (t: String)
        ensures
            t@ == self.painted(DIM@, s@),
    {
        self.paint(DIM, s)
    }

    /// Bold: for commit summaries, emphasis.
    pub fn bold(self, s: &str) -> (t: String)
        ensures
            t@ == self.painted(BOLD@, s@),
    {
        self.paint(BOLD, s)
    }

    /// Cyan: for file names in headers.
    pub fn cyan(self, s: &str) -> (t: String)
        ensures
            t@ == self.painted(CYAN@, s@),
    {
        self.paint(CYAN, s)
    }

    /// Yellow: for truncation and rotation warnings.
    pub fn yellow(self, s: &str) -> (t: String)
        ensures
            t@ == self.painted(YELLOW@, s@),
    {
        self.paint(YELLOW, s)
    }

    /// Red: for errors.
    pub fn red(self, s: &str) -> (t: String)
        ensures
            t@ == self.painted(RED@, s@),
    {
        self.paint(RED, s)
    }
}

} // verus!
