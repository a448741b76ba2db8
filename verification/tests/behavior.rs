//! Whole scenarios over an in-memory filesystem. The split of the two streams is the core
//! contract (content on one, headers and warnings on the other), so both are rendered.

use logsnap::{advance, open, show, status, undo, MemFs, State};

fn owned(names: &[&str]) -> Vec<String> {
    names.iter().map(|s| s.to_string()).collect()
}

fn render(out: &[u8], err: &str) -> String {
    format!(
        "--- stdout ---\n{}--- stderr ---\n{}",
        String::from_utf8_lossy(out),
        err,
    )
}

/// Run a `show` and render both streams.
fn show_str(state: &State, fs: &MemFs, names: &[&str], prefix: bool) -> String {
    let mut out: Vec<u8> = Vec::new();
    let mut err = String::new();
    show(state, fs, &owned(names), prefix, &mut out, &mut err).unwrap();
    render(&out, &err)
}

fn advance_str(state: &mut State, fs: &MemFs, names: &[&str]) -> String {
    let mut err = String::new();
    advance(state, fs, &owned(names), &mut err).unwrap();
    render(&[], &err)
}

fn status_str(state: &State, fs: &MemFs) -> String {
    let mut err = String::new();
    status(state, fs, "<session>", &mut err);
    render(&[], &err)
}

fn open_at_eof(fs: &MemFs, paths: &[&str]) -> State {
    let mut err = String::new();
    open(fs, &owned(paths), false, &mut err)
}

#[test]
fn open_hides_existing_then_show_new() {
    let mut fs = MemFs::new();
    fs.put("player.log", "old 1\nold 2\n");
    let state = open_at_eof(&fs, &["player.log"]);

    // Nothing new yet: the two pre-existing lines must not show.
    assert_eq!(
        show_str(&state, &fs, &[], false),
        "--- stdout ---\n\
         --- stderr ---\n\
         === player.log: 0 new line(s) ===\n"
    );

    // After appending, only the new lines show, on stdout; the header on stderr.
    fs.append("player.log", "INFO spawn ok\nERROR null ref\n");
    assert_eq!(
        show_str(&state, &fs, &[], false),
        "--- stdout ---\n\
         INFO spawn ok\n\
         ERROR null ref\n\
         --- stderr ---\n\
         === player.log: 2 new line(s) ===\n"
    );
}

#[test]
fn show_is_read_only_and_repeatable() {
    let mut fs = MemFs::new();
    fs.put("a.log", "");
    let state = open_at_eof(&fs, &["a.log"]);
    fs.append("a.log", "one\ntwo\n");

    let first = show_str(&state, &fs, &[], false);
    let second = show_str(&state, &fs, &[], false);
    assert_eq!(first, second, "show must be idempotent");
    assert_eq!(state.files[0].cursor, 0, "show must not move the cursor");
}

#[test]
fn partial_line_is_not_committed() {
    let mut fs = MemFs::new();
    fs.put("a.log", "");
    let mut state = open_at_eof(&fs, &["a.log"]);

    // A complete line plus a trailing partial (log mid-write).
    fs.append("a.log", "complete line\npartial no newline");
    assert_eq!(
        show_str(&state, &fs, &[], false),
        "--- stdout ---\n\
         complete line\n\
         --- stderr ---\n\
         === a.log: 1 new line(s), +18b partial ===\n"
    );

    // Advancing commits only the complete line; the partial stays pending.
    advance_str(&mut state, &fs, &[]);
    assert_eq!(
        show_str(&state, &fs, &[], false),
        "--- stdout ---\n\
         --- stderr ---\n\
         === a.log: 0 new line(s), +18b partial ===\n"
    );

    // Once the newline arrives, the whole line surfaces.
    fs.append("a.log", " now finished\n");
    assert_eq!(
        show_str(&state, &fs, &[], false),
        "--- stdout ---\n\
         partial no newline now finished\n\
         --- stderr ---\n\
         === a.log: 1 new line(s) ===\n"
    );
}

#[test]
fn advance_then_show_is_empty_and_undo_restores() {
    let mut fs = MemFs::new();
    fs.put("a.log", "");
    let mut state = open_at_eof(&fs, &["a.log"]);
    fs.append("a.log", "l1\nl2\nl3\n");

    assert_eq!(
        advance_str(&mut state, &fs, &[]),
        "--- stdout ---\n\
         --- stderr ---\n\
         \x20 a.log: advancing past 3 line(s)  [0 → 9]\n"
    );

    // Immediately after advance: nothing new.
    assert_eq!(
        show_str(&state, &fs, &[], false),
        "--- stdout ---\n\
         --- stderr ---\n\
         === a.log: 0 new line(s) ===\n"
    );

    // Undo brings the cursor (and the lines) back.
    let mut err = String::new();
    undo(&mut state, &mut err);
    assert_eq!(state.files[0].cursor, 0);
    assert_eq!(
        show_str(&state, &fs, &[], false),
        "--- stdout ---\n\
         l1\n\
         l2\n\
         l3\n\
         --- stderr ---\n\
         === a.log: 3 new line(s) ===\n"
    );
}

#[test]
fn rotation_is_detected() {
    let mut fs = MemFs::new();
    fs.put("Player.log", "run1 a\nrun1 b\n");
    let mut state = open_at_eof(&fs, &["Player.log"]);
    fs.append("Player.log", "run1 c\n");
    advance_str(&mut state, &fs, &["Player.log"]);

    // Game restart: same path, brand-new inode and fresh content.
    fs.rotate("Player.log", "run2 fresh 1\nrun2 fresh 2\n");

    // The new file is read from the start, with a loud warning on stderr.
    assert_eq!(
        show_str(&state, &fs, &[], false),
        "--- stdout ---\n\
         run2 fresh 1\n\
         run2 fresh 2\n\
         --- stderr ---\n\
         === Player.log: 2 new line(s) ===\n\
         \x20   ⚠ IDENTITY CHANGED (rotated/replaced) — reading new file from start; \
         prior content may be in a rotated file (e.g. *-prev.log)\n"
    );
}

#[test]
fn truncation_is_detected() {
    let mut fs = MemFs::new();
    fs.put("app.log", "a\nb\nc\nd\n");
    let state = open_at_eof(&fs, &["app.log"]); // cursor at EOF (8)

    // Rewritten in place, smaller, same inode.
    fs.put("app.log", "x\n");
    assert_eq!(
        show_str(&state, &fs, &[], false),
        "--- stdout ---\n\
         x\n\
         --- stderr ---\n\
         === app.log: 1 new line(s) ===\n\
         \x20   ⚠ TRUNCATED (shrank) — reading from start\n"
    );
}

#[test]
fn prefix_mode_tags_each_line() {
    let mut fs = MemFs::new();
    fs.put("a.log", "");
    let state = open_at_eof(&fs, &["a.log"]);
    fs.append("a.log", "first\nsecond\n");
    assert_eq!(
        show_str(&state, &fs, &["a.log"], true),
        "--- stdout ---\n\
         a.log: first\n\
         a.log: second\n\
         --- stderr ---\n\
         === a.log: 2 new line(s) ===\n"
    );
}

#[test]
fn status_shows_line_positions() {
    let mut fs = MemFs::new();
    fs.put("player.log", "boot 1\nboot 2\n");
    fs.put("modlog.txt", "m1\n");
    let mut state = open_at_eof(&fs, &["player.log", "modlog.txt"]);
    fs.append("player.log", "new a\nnew b\nnew c\n");
    advance_str(&mut state, &fs, &["modlog.txt"]); // no-op, modlog has nothing new

    assert_eq!(
        status_str(&state, &fs),
        "--- stdout ---\n\
         --- stderr ---\n\
         session: <session>  (0 undo)\n\
         \x20 player.log  line 2/5   3 new\n\
         \x20 modlog.txt  line 1/1   up to date\n"
    );
}
