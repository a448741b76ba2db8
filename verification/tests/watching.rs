//! Opening, showing, following, waiting, viewing.

use logsnap::{
    banner, commit_request, diff_request, display_lines, event_note, follow, line_stats, note_for, open, placeholder, poll, region, report_settled,
    reselect, resolve, select, show, show_reports, slice_bytes, start_wait, status, wait_step,
    Diff, Event, FileState, Fs, Mark, MemFs, Plan, Snapshot, Stat, State, Step, Waiting,
};
use logsnap::commands::wait::GIVE_UP;
use logsnap::pending::pending;

fn owned(names: &[&str]) -> Vec<String> {
    names.iter().map(|s| s.to_string()).collect()
}

fn opened(fs: &MemFs, paths: &[&str]) -> State {
    let mut err = String::new();
    open(fs, &owned(paths), false, &mut err)
}

fn file(dev: u64, ino: u64, cursor: u64) -> FileState {
    FileState { path: "a.log".to_string(), dev, ino, cursor }
}

fn stat(dev: u64, ino: u64, size: u64) -> Option<Stat> {
    Some(Stat { dev, ino, size })
}

fn text(b: &[u8]) -> String {
    String::from_utf8(b.to_vec()).unwrap()
}

#[test]
fn open_says_how_much_is_there() {
    let mut fs = MemFs::new();
    fs.put("/l/a.log", "one\ntwo\nhalf");
    let mut err = String::new();
    let s = open(&fs, &owned(&["/l/a.log", "/l/b.log"]), false, &mut err);
    assert_eq!(err, "  a.log  (2 lines)\n  b.log  (not present yet)\n");
    assert_eq!(s.files[0].cursor, 12);
    assert_eq!((s.files[0].dev, s.files[0].ino), (1, 1));
    let mut err = String::new();
    let s = open(&fs, &owned(&["/l/a.log"]), true, &mut err);
    assert_eq!(err, "  a.log  (2 lines, 2 pending)\n");
    assert_eq!(s.files[0].cursor, 0);
    let mut out: Vec<u8> = Vec::new();
    let mut err = String::new();
    show(&s, &fs, &[], false, &mut out, &mut err).unwrap();
    assert_eq!(text(&out), "one\ntwo\n");
    assert_eq!(err, "=== a.log: 2 new line(s), +4b partial ===\n");
}

#[test]
fn resolve_tells_what_happened() {
    // Never seen: missing, or it appeared.
    assert_eq!(resolve(&file(0, 0, 0), &None), (0, Event::Missing));
    assert_eq!(resolve(&file(0, 0, 0), &stat(1, 5, 10)), (0, Event::Appeared));
    assert_eq!(resolve(&file(0, 0, 7), &stat(1, 5, 10)), (7, Event::Appeared));
    assert_eq!(resolve(&file(0, 0, 70), &stat(1, 5, 10)), (10, Event::Appeared));
    // Seen before.
    assert_eq!(resolve(&file(1, 5, 7), &None), (7, Event::Disappeared));
    assert_eq!(resolve(&file(1, 5, 7), &stat(1, 5, 7)), (7, Event::Same));
    assert_eq!(resolve(&file(1, 5, 7), &stat(1, 5, 9)), (7, Event::Same));
    assert_eq!(resolve(&file(1, 5, 7), &stat(1, 5, 6)), (0, Event::Truncated));
    assert_eq!(resolve(&file(1, 5, 7), &stat(1, 6, 9)), (0, Event::Rotated));
    assert_eq!(resolve(&file(1, 5, 7), &stat(2, 5, 9)), (0, Event::Rotated));
    assert!(Event::Missing.absent() && Event::Disappeared.absent());
    assert!(!Event::Same.absent() && !Event::Appeared.absent());
    assert!(!Event::Rotated.absent() && !Event::Truncated.absent());
}

#[test]
fn region_holds_complete_lines_only() {
    let r = region(b"ab\ncd\nef", 3);
    assert_eq!(text(&r.bytes), "cd\n");
    assert_eq!((r.end, r.lines, r.partial), (6, 1, 2));
    let r = region(b"ab\ncd\n", 0);
    assert_eq!((text(&r.bytes).as_str(), r.end, r.lines, r.partial), ("ab\ncd\n", 6, 2, 0));
    let r = region(b"no newline", 0);
    assert_eq!((r.bytes.len(), r.end, r.lines, r.partial), (0, 0, 0, 10));
    // Past the end there is nothing.
    let r = region(b"ab\n", 9);
    assert_eq!((r.bytes.len(), r.end, r.lines, r.partial), (0, 9, 0, 0));
    let r = region(b"\n\n\n", 1);
    assert_eq!((r.end, r.lines), (3, 2));
}

#[test]
fn line_stats_count_before_and_in_all() {
    assert_eq!(line_stats(b"a\nb\nc\n", 4), (2, 3));
    assert_eq!(line_stats(b"a\nb\nc\n", 0), (0, 3));
    assert_eq!(line_stats(b"a\nb\nc", 99), (2, 2));
    assert_eq!(line_stats(b"", 0), (0, 0));
}

#[test]
fn names_select_by_path_name_and_suffix() {
    let fs = MemFs::new();
    let s = opened(&fs, &["/x/a.log", "/y/a.log", "/y/b.txt"]);
    assert_eq!(select(&s, &[]), Ok(vec![0, 1, 2]));
    assert_eq!(select(&s, &owned(&["a.log"])), Ok(vec![0]));
    assert_eq!(select(&s, &owned(&["/y/a.log"])), Ok(vec![1]));
    assert_eq!(select(&s, &owned(&["y/a.log", "b.txt", "txt"])), Ok(vec![1, 2, 2]));
    assert_eq!(
        select(&s, &owned(&["b.txt", "c", "d"])),
        Err("not in session: c".to_string())
    );
    // Every path ends with nothing.
    assert_eq!(select(&s, &owned(&[""])), Ok(vec![0]));
    assert_eq!(select(&opened(&fs, &[]), &[]), Ok(vec![]));
}

#[test]
fn show_refuses_unknown_names_and_prints_nothing() {
    let mut fs = MemFs::new();
    fs.put("a.log", "");
    let s = opened(&fs, &["a.log"]);
    fs.append("a.log", "x\n");
    let mut out: Vec<u8> = Vec::new();
    let mut err = String::new();
    let r = show(&s, &fs, &owned(&["a.log", "zz"]), false, &mut out, &mut err);
    assert_eq!(r, Err("not in session: zz".to_string()));
    assert!(out.is_empty() && err.is_empty());
    assert!(show_reports(&s, &fs, &owned(&["zz"]), false).is_err());
}

#[test]
fn show_goes_file_by_file() {
    let mut fs = MemFs::new();
    fs.put("a.log", "");
    let s = opened(&fs, &["a.log", "b.log"]);
    fs.append("a.log", "1\n\n2\n");
    let reports = show_reports(&s, &fs, &[], true).unwrap();
    assert_eq!(reports.len(), 2);
    assert_eq!(reports[0].err, "=== a.log: 3 new line(s) ===\n");
    assert_eq!(text(&reports[0].out), "a.log: 1\na.log: \na.log: 2\n");
    assert_eq!(reports[1].err, "=== b.log: 0 new line(s) ===\n    not present\n");
    assert!(reports[1].out.is_empty());
    // Bytes that are no text pass unchanged.
    let mut out: Vec<u8> = Vec::new();
    let mut err = String::new();
    show(&s, &fs, &owned(&["a.log"]), false, &mut out, &mut err).unwrap();
    assert_eq!(out, b"1\n\n2\n");
}

#[test]
fn status_pads_names_and_tells_partials_and_absence() {
    let mut fs = MemFs::new();
    fs.put("/l/näme.log", "one\n");
    fs.put("/l/b", "x\n");
    fs.put("/l/gone", "y\n");
    let s = opened(&fs, &["/l/näme.log", "/l/b", "/l/gone", "/l/never"]);
    fs.append("/l/näme.log", "two\nhalf");
    fs.append("/l/b", "half");
    fs.remove("/l/gone");
    let mut err = String::new();
    status(&s, &fs, "<s>", &mut err);
    assert_eq!(
        err,
        "session: <s>  (0 undo)\n\
         \x20 näme.log   line 1/2   1 new (+4b partial)\n\
         \x20 b          line 1/1   0 new (+4b partial)\n\
         \x20 gone       line 0/0   DISAPPEARED since last seen\n\
         \x20 never      line 0/0   not present\n"
    );
}

#[test]
fn notes_on_events() {
    assert_eq!(event_note(Event::Same, None), None);
    assert_eq!(event_note(Event::Appeared, Some("x")), None);
    assert_eq!(event_note(Event::Missing, None).unwrap(), "not present");
    assert_eq!(event_note(Event::Disappeared, None).unwrap(), "DISAPPEARED since last seen");
    assert_eq!(
        event_note(Event::Truncated, None).unwrap(),
        "⚠ TRUNCATED (shrank) — reading from start"
    );
    assert_eq!(
        event_note(Event::Rotated, Some("/g/old.log")).unwrap(),
        "⚠ IDENTITY CHANGED (rotated/replaced) — reading new file from start; \
         prior content is in old.log"
    );
    assert_eq!(note_for(Event::Same), None);
    assert_eq!(note_for(Event::Appeared), None);
    assert_eq!(note_for(Event::Missing).unwrap(), "not present");
    assert_eq!(note_for(Event::Disappeared).unwrap(), "disappeared since last seen");
    assert_eq!(
        note_for(Event::Truncated).unwrap(),
        "⚠ truncated (shrank) — reading from start"
    );
    assert_eq!(
        note_for(Event::Rotated).unwrap(),
        "⚠ identity changed (rotated/replaced) — reading the new file from start"
    );
}

#[test]
fn pending_gathers_what_is_known() {
    let mut fs = MemFs::new();
    fs.put("a.log", "one\n");
    let s = opened(&fs, &["a.log"]);
    fs.append("a.log", "two\nha");
    let p = pending(&fs, &s.files[0]);
    assert_eq!(p.event, Event::Same);
    assert_eq!((p.dev, p.ino), (1, 1));
    assert_eq!(text(&p.region.bytes), "two\n");
    assert_eq!((p.region.end, p.region.lines, p.region.partial), (8, 1, 2));
    assert_eq!(p.note, None);
}

#[test]
fn memory_models_growth_rotation_and_truncation() {
    let mut fs = MemFs::new();
    assert!(fs.stat("a").is_none());
    assert_eq!(fs.read("a"), None);
    fs.append("a", "x");
    fs.append("a", "y");
    assert_eq!(fs.read("a"), Some(b"xy".to_vec()));
    let st = fs.stat("a").unwrap();
    assert_eq!((st.dev, st.ino, st.size), (1, 1, 2));
    fs.put("a", "z");
    assert_eq!(fs.stat("a").unwrap().ino, 1);
    assert_eq!(fs.stat("a").unwrap().size, 1);
    fs.rotate("a", "new");
    assert_eq!(fs.stat("a").unwrap().ino, 2);
    fs.put("b", "ü");
    assert_eq!(fs.stat("b").unwrap().ino, 3);
    assert_eq!(fs.stat("b").unwrap().size, 2);
    // Renaming keeps the inode, and replaces what stood there.
    fs.rename("a", "b");
    assert!(fs.stat("a").is_none());
    assert_eq!(fs.stat("b").unwrap().ino, 2);
    assert_eq!(fs.read("b"), Some(b"new".to_vec()));
    fs.rename("nothing", "b");
    assert_eq!(fs.stat("b").unwrap().ino, 2);
    fs.remove("b");
    assert!(fs.stat("b").is_none());
    fs.remove("b");
}

#[test]
fn siblings_come_in_order_from_one_directory() {
    let mut fs = MemFs::new();
    for p in ["/d/b", "/d/a", "/d/ü", "/d/Z", "/e/a", "top", "/d/x/a", "aaa", "/d/ab"] {
        fs.put(p, "");
    }
    assert_eq!(fs.siblings("/d/none"), vec!["/d/Z", "/d/a", "/d/ab", "/d/b", "/d/ü"]);
    assert_eq!(fs.siblings("x"), vec!["aaa", "top"]);
    assert_eq!(fs.siblings("/d/x/y"), vec!["/d/x/a"]);
    assert!(fs.siblings("/nowhere/y").is_empty());
}

#[test]
fn default_memory_counts_inodes_from_zero() {
    // Inode 0 stands for a file that was never seen.
    let mut fs = MemFs::default();
    fs.put("a", "x\n");
    assert_eq!(fs.stat("a").unwrap().ino, 0);
    assert_eq!(MemFs::new().siblings("a").len(), 0);
}

#[test]
fn following_prints_each_line_once() {
    let mut fs = MemFs::new();
    fs.put("a.log", "");
    fs.put("b.log", "");
    let mut s = opened(&fs, &["a.log", "b.log"]);
    fs.append("a.log", "one\nha");
    let r = follow(&mut s, &fs, &[], false, true).unwrap();
    assert_eq!(r.len(), 2);
    assert_eq!(r[0].err, "=== a.log: 1 new line(s), +2b partial ===\n");
    assert_eq!(text(&r[0].out), "one\n");
    assert_eq!(r[1].err, "=== b.log: 0 new line(s) ===\n");
    // Nothing new: nothing is said.
    let r = follow(&mut s, &fs, &[], false, false).unwrap();
    assert!(r.iter().all(|r| r.err.is_empty() && r.out.is_empty()));
    fs.append("a.log", "lf\n");
    fs.append("b.log", "b\n");
    let r = follow(&mut s, &fs, &[], true, false).unwrap();
    assert_eq!(text(&r[0].out), "a.log: half\n");
    assert_eq!(text(&r[1].out), "b.log: b\n");
    // A rotation is reported once, an absent file not at all.
    fs.rotate("a.log", "");
    fs.remove("b.log");
    let r = follow(&mut s, &fs, &[], false, false).unwrap();
    assert!(r[0].err.contains("IDENTITY CHANGED"));
    assert!(r[1].err.is_empty());
    let r = follow(&mut s, &fs, &[], false, false).unwrap();
    assert!(r[0].err.is_empty());
    assert_eq!(
        follow(&mut s, &fs, &owned(&["c"]), false, false).err(),
        Some("not in session: c".to_string())
    );
}

/// Looks at the session and returns the next step; `w` is kept up to date.
fn look(
    s: &State,
    fs: &MemFs,
    needle: Option<&str>,
    plan: Plan,
    w: &mut Option<Waiting>,
    now: u64,
) -> Step {
    let needle = needle.map(|n| n.to_string());
    let (next, step) = wait_step(s, fs, &[], &needle, plan, w.take(), now).unwrap();
    *w = Some(next);
    step
}

#[test]
fn waiting_for_a_line() {
    let mut fs = MemFs::new();
    fs.put("a.log", "Ready\n");
    let s = opened(&fs, &["a.log"]);
    let plan = Plan { at_most: 100, settle: None };
    let mut w = None;
    // What stood there before does not count, nor does half a line.
    assert_eq!(look(&s, &fs, Some("Ready"), plan, &mut w, 10), Step::Wait);
    fs.append("a.log", "xx Ready");
    assert_eq!(look(&s, &fs, Some("Ready"), plan, &mut w, 50), Step::Wait);
    fs.append("a.log", " go\n");
    assert_eq!(look(&s, &fs, Some("Ready"), plan, &mut w, 60), Step::Commit);
    // In time or not at all.
    let mut w = None;
    assert_eq!(look(&s, &fs, Some("Never"), plan, &mut w, 0), Step::Wait);
    assert_eq!(look(&s, &fs, Some("Never"), plan, &mut w, 99), Step::Wait);
    assert_eq!(look(&s, &fs, Some("Never"), plan, &mut w, 100), Step::TimedOut);
    // The text does not reach over the end of a line.
    assert_eq!(look(&s, &fs, Some("go\n"), plan, &mut None, 0), Step::Wait);
    assert_eq!(look(&s, &fs, Some(""), plan, &mut None, 0), Step::Commit);
    assert_eq!(s.files[0].cursor, 6);
}

#[test]
fn waiting_for_quiet() {
    let mut fs = MemFs::new();
    fs.put("a.log", "");
    let s = opened(&fs, &["a.log"]);
    let plan = Plan { at_most: 0, settle: Some(100) };
    let mut w = None;
    assert_eq!(look(&s, &fs, None, plan, &mut w, 1000), Step::Wait);
    assert_eq!(look(&s, &fs, None, plan, &mut w, 1099), Step::Wait);
    fs.append("a.log", "x");
    assert_eq!(look(&s, &fs, None, plan, &mut w, 1100), Step::Wait);
    assert_eq!(look(&s, &fs, None, plan, &mut w, 1199), Step::Wait);
    assert_eq!(look(&s, &fs, None, plan, &mut w, 1200), Step::Commit);
    // A file that is rewritten in place with the same size but a new inode changed too.
    let mut w = None;
    assert_eq!(look(&s, &fs, None, plan, &mut w, 0), Step::Wait);
    fs.rotate("a.log", "y");
    assert_eq!(look(&s, &fs, None, plan, &mut w, 100), Step::Wait);
    // Logs that never settle are given up.
    let mut w = None;
    let mut now: u64 = 0;
    let mut step = look(&s, &fs, None, plan, &mut w, now);
    while step == Step::Wait {
        now += 50;
        fs.append("a.log", "frame\n");
        step = look(&s, &fs, None, Plan { at_most: 0, settle: Some(1_000_000_000) }, &mut w, now * 1_000_000);
    }
    assert_eq!(step, Step::Unsettled);
    assert_eq!(now * 1_000_000, GIVE_UP);
}

#[test]
fn waiting_for_a_line_and_then_for_quiet() {
    let mut fs = MemFs::new();
    fs.put("a.log", "");
    let s = opened(&fs, &["a.log"]);
    let plan = Plan { at_most: 1000, settle: Some(100) };
    let mut w = None;
    assert_eq!(look(&s, &fs, Some("go"), plan, &mut w, 0), Step::Wait);
    assert_eq!(look(&s, &fs, Some("go"), plan, &mut w, 500), Step::Wait);
    fs.append("a.log", "go\n");
    assert_eq!(look(&s, &fs, Some("go"), plan, &mut w, 510), Step::Wait);
    assert_eq!(look(&s, &fs, Some("go"), plan, &mut w, 609), Step::Wait);
    assert_eq!(look(&s, &fs, Some("go"), plan, &mut w, 610), Step::Commit);
    let r = wait_step(&s, &fs, &owned(&["b"]), &None, plan, None, 0);
    assert_eq!(r.err(), Some("not in session: b".to_string()));
}

#[test]
fn poll_follows_the_plan() {
    let mark = Mark { dev: 1, ino: 2, size: 3 };
    let plan = Plan { at_most: 5, settle: Some(0) };
    let (w, step) = poll(plan, start_wait(true, 0, vec![]), 3, true, vec![mark]);
    assert_eq!(step, Step::Commit);
    assert!(matches!(w, Waiting::Quiet { since: 3, changed: 3, .. }));
    let plan = Plan { at_most: 5, settle: Some(9) };
    let w = start_wait(false, 10, vec![mark]);
    let (w, step) = poll(plan, w, 18, false, vec![mark]);
    assert_eq!(step, Step::Wait);
    let (w, step) = poll(plan, w, 20, false, vec![]);
    assert_eq!(step, Step::Wait);
    assert!(matches!(w, Waiting::Quiet { since: 10, changed: 20, .. }));
    // A clock that runs backwards does no harm.
    let (_, step) = poll(plan, w, 1, false, vec![]);
    assert_eq!(step, Step::Wait);
    let mut err = String::new();
    report_settled(1_234_999_999, &mut err);
    assert_eq!(err, "settled after 1234ms\n");
}

#[test]
fn viewer_shows_pending_and_recorded_slices() {
    let mut fs = MemFs::new();
    fs.put("a.log", "");
    fs.put("b.log", "");
    let mut s = opened(&fs, &["a.log", "b.log"]);
    fs.append("a.log", "one\n");
    let mut err = String::new();
    logsnap::commit(&mut s, &fs, &[], None, None, &mut err).unwrap();
    fs.append("a.log", "two\nha");
    let (b, note) = slice_bytes(&s, &fs, 0, Snapshot::Uncommitted);
    assert_eq!((text(&b).as_str(), note), ("two\n", None));
    let (b, note) = slice_bytes(&s, &fs, 0, Snapshot::Checkpoint(1));
    assert_eq!((text(&b).as_str(), note), ("one\n", None));
    let (b, note) = slice_bytes(&s, &fs, 1, Snapshot::Checkpoint(1));
    assert_eq!((b.len(), note.unwrap().as_str()), (0, "not part of this checkpoint"));
    let (b, note) = slice_bytes(&s, &fs, 0, Snapshot::Checkpoint(7));
    assert_eq!((b.len(), note.unwrap().as_str()), (0, "not part of this checkpoint"));
    assert_eq!(slice_bytes(&s, &fs, 2, Snapshot::Uncommitted), (vec![], None));
    fs.rotate("a.log", "new\n");
    let (b, note) = slice_bytes(&s, &fs, 0, Snapshot::Checkpoint(1));
    assert_eq!(
        (b.len(), note.unwrap().as_str()),
        (0, "unavailable (file rotated/truncated since commit)")
    );
    let (b, note) = slice_bytes(&s, &fs, 0, Snapshot::Uncommitted);
    assert_eq!(text(&b), "new\n");
    assert!(note.unwrap().starts_with("⚠ identity changed"));
    fs.remove("b.log");
    let (b, note) = slice_bytes(&s, &fs, 1, Snapshot::Uncommitted);
    assert_eq!((b.len(), note.unwrap().as_str()), (0, "disappeared since last seen"));
}

#[test]
fn viewer_splits_lines_like_std() {
    for t in ["", "\n", "a", "a\n", "a\nb", "a\n\nb\n", "\n\n", "ü\nx\r\n"] {
        let expected: Vec<Vec<u8>> = t
            .split_inclusive('\n')
            .map(|l| l.strip_suffix('\n').unwrap_or(l).as_bytes().to_vec())
            .collect();
        assert_eq!(display_lines(t.as_bytes()), expected, "{t:?}");
    }
    assert_eq!(reselect(1, 2), 1);
    assert_eq!(reselect(2, 2), 0);
    assert_eq!(reselect(0, 0), 0);
}

#[test]
fn viewer_messages() {
    let some = |s: &str| Some(s.to_string());
    assert_eq!(placeholder(&some("no session"), &some("n"), 3), some("no session"));
    assert_eq!(placeholder(&None, &some("n"), 3), None);
    assert_eq!(placeholder(&None, &some("n"), 0), some("n"));
    assert_eq!(placeholder(&None, &None, 0), some("up to date — nothing here"));
    assert_eq!(banner(&some("n"), 3), some("n"));
    assert_eq!(banner(&some("n"), 0), None);
    assert_eq!(banner(&None, 3), None);
}

#[test]
fn options_ask_for_one_thing() {
    assert!(matches!(diff_request(false, None), Ok(Diff::Pending)));
    assert!(matches!(diff_request(true, None), Ok(Diff::Follow)));
    assert!(matches!(diff_request(false, Some("^".to_string())), Ok(Diff::Recall(at)) if at == "^"));
    assert_eq!(
        diff_request(true, Some("^".to_string())).err(),
        Some("--follow and --in are mutually exclusive".to_string())
    );
    assert_eq!(commit_request(false, None, None), None);
    assert_eq!(commit_request(false, Some(5), None), None);
    assert_eq!(
        commit_request(false, Some(5), Some(7)),
        Some(Plan { at_most: 0, settle: Some(7) })
    );
    assert_eq!(commit_request(true, Some(5), None), Some(Plan { at_most: 5, settle: None }));
    assert_eq!(commit_request(true, Some(5), Some(7)), Some(Plan { at_most: 5, settle: Some(7) }));
}
