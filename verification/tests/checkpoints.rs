//! Checkpoints: committing, recalling, squashing, undoing, listing.

use logsnap::{
    advance, checkpoint_labels, checkpoint_refs, clear, commit, commit_now, find_commit, list,
    now_hms, open, session_files, show, show_at, show_at_reports, squash, status, undo, MemFs,
    State, MAX_HISTORY,
};

fn owned(names: &[&str]) -> Vec<String> {
    names.iter().map(|s| s.to_string()).collect()
}

fn opened(fs: &MemFs, paths: &[&str]) -> State {
    let mut err = String::new();
    open(fs, &owned(paths), false, &mut err)
}

fn commit_str(state: &mut State, fs: &MemFs, names: &[&str], message: Option<&str>) -> String {
    let mut err = String::new();
    commit(
        state,
        fs,
        &owned(names),
        message.map(|m| m.to_string()),
        Some("12:34:56".to_string()),
        &mut err,
    )
    .unwrap();
    err
}

fn undo_str(state: &mut State) -> String {
    let mut err = String::new();
    undo(state, &mut err);
    err
}

fn squash_str(state: &mut State, fs: &MemFs, names: &[&str]) -> Result<String, String> {
    let mut err = String::new();
    squash(state, fs, &owned(names), &mut err).map(|_| err)
}

fn at_str(state: &State, fs: &MemFs, at: &str, names: &[&str], prefix: bool) -> (String, String) {
    let mut out: Vec<u8> = Vec::new();
    let mut err = String::new();
    show_at(state, fs, at, &owned(names), prefix, &mut out, &mut err).unwrap();
    (String::from_utf8(out).unwrap(), err)
}

fn show_out(state: &State, fs: &MemFs) -> String {
    let mut out: Vec<u8> = Vec::new();
    let mut err = String::new();
    show(state, fs, &[], false, &mut out, &mut err).unwrap();
    String::from_utf8(out).unwrap()
}

fn list_str(state: &State, fs: &MemFs) -> String {
    let mut err = String::new();
    list(state, fs, "<session>", &mut err);
    err
}

/// A session with the commits `spawn` (both files) and an unnamed one (player only).
fn two_commits(fs: &mut MemFs) -> State {
    fs.put("/g/Player.log", "boot\n");
    fs.put("/g/ModLog.txt", "[API] loaded\n");
    let mut state = opened(fs, &["/g/Player.log", "/g/ModLog.txt"]);
    fs.append("/g/Player.log", "one\ntwo\n");
    fs.append("/g/ModLog.txt", "hero\n");
    commit_str(&mut state, fs, &[], Some("spawn"));
    fs.append("/g/Player.log", "three\n");
    commit_str(&mut state, fs, &[], None);
    state
}

#[test]
fn commit_reports_ranges_and_records_checkpoint() {
    let mut fs = MemFs::new();
    fs.put("/g/Player.log", "boot\n");
    fs.put("/g/ModLog.txt", "[API] loaded\n");
    let mut state = opened(&fs, &["/g/Player.log", "/g/ModLog.txt"]);
    fs.append("/g/Player.log", "one\ntwo\nhalf");
    fs.append("/g/ModLog.txt", "hero\n");
    assert_eq!(
        commit_str(&mut state, &fs, &[], Some("spawn")),
        "committed #1 \"spawn\":\n\
         \x20 Player.log: 2 line(s)  [5 → 13], +4b partial kept\n\
         \x20 ModLog.txt: 1 line(s)  [13 → 18]\n"
    );
    assert_eq!(state.next_id, 2);
    assert_eq!(state.files[0].cursor, 13);
    assert_eq!(state.files[1].cursor, 18);
    let c = &state.history[0];
    assert_eq!(c.id, 1);
    assert_eq!(c.message.as_deref(), Some("spawn"));
    assert_eq!(c.created_at.as_deref(), Some("12:34:56"));
    assert_eq!(c.entries.len(), 2);
    let e = &c.entries[0];
    assert_eq!(e.path, "/g/Player.log");
    assert_eq!((e.from, e.to, e.lines), (5, 13, 2));
    assert_eq!((e.dev, e.ino), (1, 1));
    assert_eq!((e.prev_cursor, e.prev_dev, e.prev_ino), (5, 1, 1));
    // Only the partial line is left.
    assert_eq!(show_out(&state, &fs), "");
}

#[test]
fn commit_of_nothing_says_so() {
    let mut fs = MemFs::new();
    fs.put("a.log", "x\n");
    let mut state = opened(&fs, &["a.log"]);
    assert_eq!(commit_str(&mut state, &fs, &[], None), "nothing to commit\n");
    assert_eq!(state.history.len(), 0);
    assert_eq!(state.next_id, 0);
    let mut err = String::new();
    advance(&mut state, &fs, &[], &mut err).unwrap();
    assert_eq!(err, "nothing to advance\n");
    assert_eq!(state.undo.len(), 0);
}

#[test]
fn commit_of_unknown_name_is_refused() {
    let mut fs = MemFs::new();
    fs.put("a.log", "");
    let mut state = opened(&fs, &["a.log"]);
    fs.append("a.log", "x\n");
    let mut err = String::new();
    let r = commit(&mut state, &fs, &owned(&["b.log"]), None, None, &mut err);
    assert_eq!(r, Err("not in session: b.log".to_string()));
    assert_eq!(err, "");
    assert_eq!(state.files[0].cursor, 0);
    let r = advance(&mut state, &fs, &owned(&["a.log", "b.log"]), &mut err);
    assert_eq!(r, Err("not in session: b.log".to_string()));
    assert_eq!(state.files[0].cursor, 0);
}

#[test]
fn commit_stays_possible_without_ids_when_nothing_is_new() {
    let mut fs = MemFs::new();
    fs.put("a.log", "");
    let mut state = opened(&fs, &["a.log"]);
    state.next_id = u32::MAX;
    assert_eq!(commit_str(&mut state, &fs, &[], None), "nothing to commit\n");
    state.next_id = u32::MAX - 1;
    fs.append("a.log", "x\n");
    assert_eq!(
        commit_str(&mut state, &fs, &[], None),
        "committed #4294967294:\n  a.log: 1 line(s)  [0 → 2]\n"
    );
    assert_eq!(state.next_id, u32::MAX);
}

#[test]
fn absent_files_earn_only_a_remark() {
    let mut fs = MemFs::new();
    fs.put("gone.log", "x\n");
    let mut state = opened(&fs, &["gone.log", "never.log"]);
    fs.remove("gone.log");
    assert_eq!(
        commit_str(&mut state, &fs, &[], None),
        "\x20 gone.log: DISAPPEARED since last seen\n\
         \x20 never.log: not present\n\
         nothing to commit\n"
    );
    assert_eq!(state.files[0].cursor, 2);
    assert_eq!(state.files[0].ino, 1);
}

#[test]
fn file_that_appears_is_read_from_its_start() {
    let mut fs = MemFs::new();
    let mut state = opened(&fs, &["late.log"]);
    assert_eq!((state.files[0].dev, state.files[0].ino, state.files[0].cursor), (0, 0, 0));
    fs.put("late.log", "first\n");
    assert_eq!(show_out(&state, &fs), "first\n");
    assert_eq!(
        commit_str(&mut state, &fs, &[], None),
        "committed #1:\n  late.log: 1 line(s)  [0 → 6]\n"
    );
    assert_eq!((state.files[0].dev, state.files[0].ino), (1, 1));
    // Undoing forgets the identity again.
    assert_eq!(undo_str(&mut state), "  late.log: cursor 6 → 0\nundone #1; 0 checkpoint(s) left\n");
    assert_eq!((state.files[0].dev, state.files[0].ino, state.files[0].cursor), (0, 0, 0));
}

#[test]
fn empty_rotation_is_recorded_too() {
    // No new line, but the identity changed: the record moves.
    let mut fs = MemFs::new();
    fs.put("a.log", "x\n");
    let mut state = opened(&fs, &["a.log"]);
    fs.rotate("a.log", "");
    let said = commit_str(&mut state, &fs, &[], None);
    assert!(said.starts_with("  a.log: ⚠ IDENTITY CHANGED"));
    assert!(said.ends_with("committed #1:\n  a.log: 0 line(s)  [0 → 0]\n"));
    assert_eq!(state.files[0].ino, 2);
    undo_str(&mut state);
    assert_eq!((state.files[0].ino, state.files[0].cursor), (1, 2));
}

#[test]
fn undo_reverts_commits_and_reuses_ids() {
    let mut fs = MemFs::new();
    let mut state = two_commits(&mut fs);
    assert_eq!(
        undo_str(&mut state),
        "  Player.log: cursor 19 → 13\nundone #2; 1 checkpoint(s) left\n"
    );
    assert_eq!(show_out(&state, &fs), "three\n");
    assert_eq!(
        undo_str(&mut state),
        "\x20 Player.log: cursor 13 → 5\n\
         \x20 ModLog.txt: cursor 18 → 13\n\
         undone #1 \"spawn\"; 0 checkpoint(s) left\n"
    );
    assert_eq!(show_out(&state, &fs), "one\ntwo\nthree\nhero\n");
    assert_eq!(undo_str(&mut state), "nothing to undo\n");
    // The id is given out again.
    assert!(commit_str(&mut state, &fs, &[], None).starts_with("committed #1:\n"));
}

#[test]
fn undo_steps_back_over_advances_and_commits_alike() {
    let mut fs = MemFs::new();
    fs.put("a.log", "");
    let mut state = opened(&fs, &["a.log"]);
    fs.append("a.log", "1\n");
    let mut err = String::new();
    advance(&mut state, &fs, &[], &mut err).unwrap();
    fs.append("a.log", "2\n");
    commit_str(&mut state, &fs, &[], None);
    fs.append("a.log", "3\n");
    advance(&mut state, &fs, &[], &mut err).unwrap();
    let mut said = String::new();
    status(&state, &fs, "s", &mut said);
    assert_eq!(said, "session: s  (3 undo)\n  a.log  line 3/3   up to date\n");

    assert_eq!(undo_str(&mut state), "  a.log: cursor 6 → 4\nundone; 2 undo left\n");
    assert_eq!(undo_str(&mut state), "  a.log: cursor 4 → 2\nundone #1; 0 checkpoint(s) left\n");
    assert_eq!(undo_str(&mut state), "  a.log: cursor 2 → 0\nundone; 0 undo left\n");
    assert_eq!(undo_str(&mut state), "nothing to undo\n");
    assert_eq!(state.files[0].cursor, 0);
}

#[test]
fn recall_reads_committed_lines_again() {
    let mut fs = MemFs::new();
    let state = two_commits(&mut fs);
    fs.append("/g/Player.log", "later\n");
    let (out, err) = at_str(&state, &fs, "spawn", &[], false);
    assert_eq!(out, "one\ntwo\nhero\n");
    assert_eq!(
        err,
        "=== Player.log @ #1 \"spawn\": 2 line(s) ===\n\
         === ModLog.txt @ #1 \"spawn\": 1 line(s) ===\n"
    );
    let (out, err) = at_str(&state, &fs, "2", &[], true);
    assert_eq!(out, "Player.log: three\n");
    assert_eq!(err, "=== Player.log @ #2: 1 line(s) ===\n");
    // By file: name, suffix, path; a name without a match shows nothing.
    assert_eq!(at_str(&state, &fs, "1", &["ModLog.txt"], false).0, "hero\n");
    assert_eq!(at_str(&state, &fs, "1", &["g/Player.log"], false).0, "one\ntwo\n");
    assert_eq!(at_str(&state, &fs, "1", &["other"], false), (String::new(), String::new()));
}

#[test]
fn recall_is_unavailable_after_rotation_and_truncation() {
    let mut fs = MemFs::new();
    let state = two_commits(&mut fs);
    fs.rename("/g/Player.log", "/g/Player-prev.log");
    fs.put("/g/Player.log", "a much longer line than all that stood there before\n");
    fs.put("/g/ModLog.txt", "cut\n");
    let (out, err) = at_str(&state, &fs, "1", &[], false);
    assert_eq!(out, "");
    assert_eq!(
        err,
        "=== Player.log @ #1 \"spawn\": unavailable (file rotated/truncated since commit) ===\n\
         === ModLog.txt @ #1 \"spawn\": unavailable (file rotated/truncated since commit) ===\n"
    );
    // Reports come file by file.
    let reports = show_at_reports(&state, &fs, "1", &owned(&["Player.log"]), false).unwrap();
    let said: Vec<&str> = reports.iter().map(|r| r.err.as_str()).collect();
    assert_eq!(
        said.concat(),
        "=== Player.log @ #1 \"spawn\": unavailable (file rotated/truncated since commit) ===\n"
    );
}

#[test]
fn rotated_file_is_named_by_its_identity() {
    let mut fs = MemFs::new();
    fs.put("/g/Player.log", "old\n");
    let state = opened(&fs, &["/g/Player.log"]);
    fs.rename("/g/Player.log", "/g/Player-prev.log");
    fs.put("/g/Player.log", "new\n");
    let mut out: Vec<u8> = Vec::new();
    let mut err = String::new();
    show(&state, &fs, &[], false, &mut out, &mut err).unwrap();
    assert_eq!(String::from_utf8(out).unwrap(), "new\n");
    assert_eq!(
        err,
        "=== Player.log: 1 new line(s) ===\n\
         \x20   ⚠ IDENTITY CHANGED (rotated/replaced) — reading new file from start; \
         prior content is in Player-prev.log\n"
    );
    // In another directory it is not found.
    fs.rename("/g/Player-prev.log", "/h/Player-prev.log");
    let mut err = String::new();
    let mut out: Vec<u8> = Vec::new();
    show(&state, &fs, &[], false, &mut out, &mut err).unwrap();
    assert!(err.contains("prior content may be in a rotated file"));
}

#[test]
fn references_by_id_place_and_message() {
    let mut fs = MemFs::new();
    let mut state = two_commits(&mut fs);
    assert_eq!(find_commit(&state.history, "1"), Some(0));
    assert_eq!(find_commit(&state.history, "+2"), Some(1));
    assert_eq!(find_commit(&state.history, "3"), None);
    assert_eq!(find_commit(&state.history, "^"), Some(1));
    assert_eq!(find_commit(&state.history, "^1"), Some(1));
    assert_eq!(find_commit(&state.history, "^2"), Some(0));
    assert_eq!(find_commit(&state.history, "^3"), None);
    assert_eq!(find_commit(&state.history, "^0"), None);
    assert_eq!(find_commit(&state.history, "spawn"), Some(0));
    assert_eq!(find_commit(&state.history, "spaw"), None);
    assert_eq!(find_commit(&state.history, ""), None);
    // A message that is no number and no place, though it looks like one.
    fs.append("/g/Player.log", "x\n");
    commit_str(&mut state, &fs, &[], Some("^here"));
    assert_eq!(find_commit(&state.history, "^here"), Some(2));
    let mut out: Vec<u8> = Vec::new();
    let mut err = String::new();
    let r = show_at(&state, &fs, "nope", &[], false, &mut out, &mut err);
    assert_eq!(r, Err("no checkpoint: nope".to_string()));
}

#[test]
fn first_of_equal_messages_is_found() {
    let mut fs = MemFs::new();
    fs.put("a.log", "");
    let mut state = opened(&fs, &["a.log"]);
    fs.append("a.log", "1\n");
    commit_str(&mut state, &fs, &[], Some("m"));
    fs.append("a.log", "2\n");
    commit_str(&mut state, &fs, &[], Some("m"));
    assert_eq!(at_str(&state, &fs, "m", &[], false).0, "1\n");
    // A number is always an id, never a message.
    fs.append("a.log", "3\n");
    commit_str(&mut state, &fs, &[], Some("2"));
    assert_eq!(at_str(&state, &fs, "2", &[], false).0, "2\n");
}

#[test]
fn squash_extends_newest_checkpoint() {
    let mut fs = MemFs::new();
    let mut state = two_commits(&mut fs);
    fs.append("/g/Player.log", "four\nhalf");
    fs.append("/g/ModLog.txt", "more\n");
    assert_eq!(
        squash_str(&mut state, &fs, &[]).unwrap(),
        "squashed into #2:\n\
         \x20 Player.log: 1 line(s)  [19 → 24], +4b partial kept\n\
         \x20 ModLog.txt: 1 line(s)  [18 → 23]\n"
    );
    assert_eq!(state.history.len(), 2);
    assert_eq!(state.history[1].id, 2);
    assert_eq!(state.next_id, 3);
    // The first file continues its range, the second joins.
    assert_eq!(state.history[1].entries.len(), 2);
    assert_eq!(at_str(&state, &fs, "^", &[], false).0, "three\nfour\nmore\n");
    assert_eq!(state.history[1].entries[0].lines, 2);
    // Undo reverts all of it.
    assert_eq!(
        undo_str(&mut state),
        "\x20 Player.log: cursor 24 → 13\n\
         \x20 ModLog.txt: cursor 23 → 18\n\
         undone #2; 1 checkpoint(s) left\n"
    );
    assert_eq!(show_out(&state, &fs), "three\nfour\nmore\n");
}

#[test]
fn squash_after_rotation_records_the_new_file() {
    let mut fs = MemFs::new();
    fs.put("a.log", "");
    let mut state = opened(&fs, &["a.log"]);
    fs.append("a.log", "old\n");
    commit_str(&mut state, &fs, &[], None);
    fs.rotate("a.log", "fresh\n");
    squash_str(&mut state, &fs, &[]).unwrap();
    assert_eq!(at_str(&state, &fs, "^", &[], false).0, "fresh\n");
    undo_str(&mut state);
    assert_eq!((state.files[0].ino, state.files[0].cursor), (1, 0));
}

#[test]
fn squash_needs_a_checkpoint() {
    let mut fs = MemFs::new();
    fs.put("a.log", "");
    let mut state = opened(&fs, &["a.log"]);
    fs.append("a.log", "1\n");
    assert_eq!(
        squash_str(&mut state, &fs, &[]),
        Err("no checkpoint to squash into".to_string())
    );
    assert_eq!(state.files[0].cursor, 0);
    commit_str(&mut state, &fs, &[], None);
    assert_eq!(squash_str(&mut state, &fs, &[]).unwrap(), "nothing to squash\n");
    assert_eq!(
        squash_str(&mut state, &fs, &["b.log"]),
        Err("not in session: b.log".to_string())
    );
}

#[test]
fn list_shows_time_message_counts_and_uncommitted() {
    let mut fs = MemFs::new();
    let mut state = two_commits(&mut fs);
    state.history[1].created_at = None;
    assert_eq!(
        list_str(&state, &fs),
        "history: <session>  (2 checkpoint(s))\n\
         \x20 #1   12:34:56 spawn          Player.log: 2 lines, ModLog.txt: 1 lines\n\
         \x20 #2   -        -              Player.log: 1 lines\n"
    );
    fs.append("/g/ModLog.txt", "x\n");
    fs.append("/g/Player.log", "y\n");
    assert!(list_str(&state, &fs).ends_with("\nuncommitted: Player.log, ModLog.txt\n"));
}

#[test]
fn list_without_history_says_so() {
    let mut fs = MemFs::new();
    fs.put("a.log", "x\n");
    let state = opened(&fs, &["a.log"]);
    assert_eq!(
        list_str(&state, &fs),
        "history: <session>  (0 checkpoint(s))\n  (none yet — `commit` to create one)\n"
    );
}

#[test]
fn history_keeps_the_newest_checkpoints() {
    let mut fs = MemFs::new();
    fs.put("a.log", "");
    let mut state = opened(&fs, &["a.log"]);
    for _ in 0..MAX_HISTORY + 5 {
        fs.append("a.log", "x\n");
        commit_str(&mut state, &fs, &[], None);
    }
    assert_eq!(MAX_HISTORY, 200);
    assert_eq!(state.history.len(), 200);
    assert_eq!(state.history[0].id, 6);
    assert_eq!(state.history[199].id, 205);
    assert_eq!(find_commit(&state.history, "5"), None);
    assert_eq!(find_commit(&state.history, "^200"), Some(0));
}

#[test]
fn clear_keeps_files_and_drops_history() {
    let mut fs = MemFs::new();
    let mut state = two_commits(&mut fs);
    fs.append("/g/Player.log", "pending\n");
    let mut err = String::new();
    clear(&mut state, &fs, &mut err);
    assert_eq!(err, "  Player.log  (5 lines)\n  ModLog.txt  (2 lines)\n");
    assert_eq!(state.history.len(), 0);
    assert_eq!(state.undo.len(), 0);
    assert_eq!(state.files.len(), 2);
    assert_eq!(state.files[0].path, "/g/Player.log");
    assert_eq!(show_out(&state, &fs), "");
    fs.append("/g/Player.log", "z\n");
    assert!(commit_str(&mut state, &fs, &[], None).starts_with("committed #1:\n"));
}

#[test]
fn stamped_commit_has_a_time_of_day() {
    let mut fs = MemFs::new();
    fs.put("a.log", "");
    let mut state = opened(&fs, &["a.log"]);
    fs.append("a.log", "x\n");
    let mut err = String::new();
    commit_now(&mut state, &fs, &[], Some("now".to_string()), &mut err).unwrap();
    assert_eq!(err, "committed #1 \"now\":\n  a.log: 1 line(s)  [0 → 2]\n");
    for t in [state.history[0].created_at.clone().unwrap(), now_hms().unwrap()] {
        let parts: Vec<&str> = t.split(':').collect();
        assert_eq!(parts.len(), 3);
        assert!(parts.iter().all(|p| p.len() == 2));
        let n: Vec<u32> = parts.iter().map(|p| p.parse().unwrap()).collect();
        assert!(n[0] < 24 && n[1] < 60 && n[2] < 60);
    }
    let r = commit_now(&mut state, &fs, &owned(&["b"]), None, &mut err);
    assert_eq!(r, Err("not in session: b".to_string()));
}

#[test]
fn completions_name_files_and_checkpoints() {
    let mut fs = MemFs::new();
    let state = two_commits(&mut fs);
    assert_eq!(session_files(&state), vec!["Player.log", "ModLog.txt"]);
    assert_eq!(checkpoint_refs(&state), vec!["spawn", "^2", "2", "^1"]);
    let refs = checkpoint_refs(&state);
    assert_eq!(find_commit(&state.history, &refs[0]), Some(0));
    assert_eq!(find_commit(&state.history, &refs[1]), Some(0));
    assert_eq!(find_commit(&state.history, &refs[2]), Some(1));
    assert_eq!(find_commit(&state.history, &refs[3]), Some(1));
}

#[test]
fn labels_come_newest_first() {
    let mut fs = MemFs::new();
    let mut state = two_commits(&mut fs);
    state.history[1].created_at = None;
    assert_eq!(
        checkpoint_labels(&state),
        vec![
            (2, "#2    ".to_string()),
            (1, "#1  12:34:56  spawn".to_string()),
        ]
    );
}
