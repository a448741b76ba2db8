//! Names, paths, numbers, durations, colors.

use std::path::{Component, Path, PathBuf};

use logsnap::duration::trim;
use logsnap::text::{bytes_eq, chars_of, parse_u32, push_bytes, push_decimal, push_padded, str_eq};
use logsnap::{abspath, dir_of, parse_duration, path_matches, short, state_path, Style, Unit};

#[test]
fn short_is_the_file_name() {
    for p in [
        "", "/", "a", "a/b.log", "/x/y/z.txt", "a/", "a//", "a/.", "a/./", "./", ".", "..", "a/..",
        "../b", "a/../", "//", "/a/b/", "a/b/./.", "...", ".hidden", "a/.hidden", "ü/ß.log", "a//b",
    ] {
        let expected = Path::new(p).file_name().and_then(|s| s.to_str()).unwrap_or(p);
        assert_eq!(short(p), expected, "{p:?}");
    }
}

#[test]
fn directory_is_what_stands_before_the_last_slash() {
    assert_eq!(dir_of("/x/y.log"), "/x");
    assert_eq!(dir_of("/y.log"), "");
    assert_eq!(dir_of("y.log"), "");
    assert_eq!(dir_of("a/b/"), "a/b");
    assert_eq!(dir_of(""), "");
}

#[test]
fn paths_match_by_path_name_and_suffix() {
    assert!(path_matches("/x/a.log", "/x/a.log"));
    assert!(path_matches("/x/a.log", "a.log"));
    assert!(path_matches("/x/a.log", "x/a.log"));
    assert!(path_matches("/x/a.log", ".log"));
    assert!(path_matches("/x/a.log/", "a.log"));
    assert!(!path_matches("/x/a.log", "/a.log/"));
    assert!(!path_matches("/x/a.log", "b.log"));
    assert!(!path_matches("a", "/a"));
}

/// Absolute and collapsed, by std.
fn by_std(cwd: Option<&str>, s: &str) -> String {
    let p = PathBuf::from(s);
    let abs = if p.is_absolute() {
        p
    } else {
        cwd.map(|c| PathBuf::from(c).join(&p)).unwrap_or(p)
    };
    let mut out = PathBuf::new();
    for comp in abs.components() {
        match comp {
            Component::ParentDir => {
                out.pop();
            }
            Component::CurDir => {}
            other => out.push(other),
        }
    }
    out.to_string_lossy().into_owned()
}

#[test]
fn abspath_collapses_like_std() {
    for cwd in [None, Some("/"), Some("/home/me"), Some("/home/me/"), Some("rel")] {
        for p in [
            "", "a.log", "./a.log", "../a.log", "../../../a", "/x/y", "/x/./y", "/x/../y", "/..", "/",
            "//x//y/", "a/b/../../c", ".", "..", "a/", "ü/../ß", "a/...", "/a/b/..",
        ] {
            assert_eq!(abspath(cwd, p), by_std(cwd, p), "{cwd:?} {p:?}");
        }
    }
    assert_eq!(abspath(Some("/home/me"), "../you/./a.log"), "/home/you/a.log");
    // Doing it again changes nothing.
    let once = abspath(Some("/home/me"), "../you/./a.log");
    assert_eq!(abspath(Some("/elsewhere"), &once), once);
}

#[test]
fn state_path_follows_the_environment() {
    let at = |e: Option<&str>, x: Option<&str>, h: Option<&str>| {
        String::from_utf8(state_path(
            e.map(|s| s.as_bytes()),
            x.map(|s| s.as_bytes()),
            h.map(|s| s.as_bytes()),
        ))
        .unwrap()
    };
    assert_eq!(at(Some("/tmp/s.json"), Some("/x"), Some("/h")), "/tmp/s.json");
    assert_eq!(at(Some(""), Some("/x"), Some("/h")), "");
    assert_eq!(at(None, Some("/x"), Some("/h")), "/x/logsnap/state.json");
    assert_eq!(at(None, Some("/x/"), Some("/h")), "/x/logsnap/state.json");
    // A relative directory does not count.
    assert_eq!(at(None, Some("x"), Some("/h")), "/h/.local/state/logsnap/state.json");
    assert_eq!(at(None, Some(""), Some("/h")), "/h/.local/state/logsnap/state.json");
    assert_eq!(at(None, None, Some("/h/")), "/h/.local/state/logsnap/state.json");
    assert_eq!(at(None, None, None), ".local/state/logsnap/state.json");
}

#[test]
fn numbers_parse_like_std() {
    for s in [
        "0", "1", "42", "+7", "007", "4294967295", "4294967296", "99999999999999999999", "", "+", "-1",
        "1 ", " 1", "1a", "a", "^1", "++1", "١", "00000000000000000001",
    ] {
        assert_eq!(parse_u32(s), s.parse::<u32>().ok(), "{s:?}");
    }
}

#[test]
fn decimals_and_padding_print_like_std() {
    for n in [0u64, 7, 10, 99, 100, 1234567890, u64::MAX] {
        let mut s = "x".to_string();
        push_decimal(&mut s, n);
        assert_eq!(s, format!("x{n}"));
    }
    for (t, w) in [("", 0), ("", 3), ("ab", 1), ("ab", 2), ("ab", 5), ("äö", 4)] {
        let mut s = String::new();
        push_padded(&mut s, t, w);
        assert_eq!(s, format!("{t:<w$}"));
    }
}

#[test]
fn text_helpers() {
    assert_eq!(chars_of("aü"), vec!['a', 'ü']);
    assert!(str_eq("aü", "aü") && !str_eq("a", "b") && !str_eq("a", "ab"));
    assert!(bytes_eq(b"ab", b"ab") && !bytes_eq(b"ab", b"ac") && !bytes_eq(b"a", b"ab"));
    let mut v = vec![1u8];
    push_bytes(&mut v, &[2, 3]);
    assert_eq!(v, vec![1, 2, 3]);
}

#[test]
fn trim_knows_unicode_space() {
    for n in 0u32..0x3100 {
        if let Some(c) = char::from_u32(n) {
            let s: String = [c, 'x', c, 'y', c].iter().collect();
            assert_eq!(trim(&s), s.trim(), "{n:x}");
        }
    }
    assert_eq!(trim(" \t\n "), "");
    assert_eq!(trim(""), "");
}

#[test]
fn durations_come_apart() {
    let ok = |s: &str| parse_duration(s).unwrap();
    assert_eq!(ok("2s"), ("2".to_string(), Unit::Seconds));
    assert_eq!(ok("500ms"), ("500".to_string(), Unit::Milliseconds));
    assert_eq!(ok(" 1m "), ("1".to_string(), Unit::Minutes));
    assert_eq!(ok("1.5s"), ("1.5".to_string(), Unit::Seconds));
    assert_eq!(ok(".5s"), (".5".to_string(), Unit::Seconds));
    assert_eq!(ok("1.s"), ("1.".to_string(), Unit::Seconds));
    let err = |s: &str| parse_duration(s).unwrap_err();
    assert_eq!(err("20"), "missing unit in '20' (use ms, s, or m)");
    assert_eq!(err(""), "missing unit in '' (use ms, s, or m)");
    assert_eq!(err("s"), "invalid number in 's'");
    assert_eq!(err(".s"), "invalid number in '.s'");
    assert_eq!(err("1.2.3s"), "invalid number in '1.2.3s'");
    assert_eq!(err("-1s"), "invalid number in '-1s'");
    assert_eq!(err("2h"), "unknown unit 'h' in '2h' (use ms, s, or m)");
    assert_eq!(err("2 s"), "unknown unit ' s' in '2 s' (use ms, s, or m)");
}

#[test]
fn the_numbers_of_durations_are_floats() {
    for s in ["0s", "1s", "1.s", ".5s", "1.5s", "..s", ".s", "s", "1..2s", "12.34ms", "007m"] {
        let number: String = s.chars().take_while(|c| c.is_ascii_digit() || *c == '.').collect();
        assert_eq!(parse_duration(s).is_ok(), number.parse::<f64>().is_ok(), "{s:?}");
    }
}

#[test]
fn style_paints_or_passes_through() {
    let on = Style::new(true);
    assert_eq!(on.dim("x"), "\x1b[2mx\x1b[0m");
    assert_eq!(on.bold("x"), "\x1b[1mx\x1b[0m");
    assert_eq!(on.cyan("x"), "\x1b[36mx\x1b[0m");
    assert_eq!(on.yellow("x"), "\x1b[33mx\x1b[0m");
    assert_eq!(on.red(""), "\x1b[31m\x1b[0m");
    let off = Style::new(false);
    for s in [off.dim("x"), off.bold("x"), off.cyan("x"), off.yellow("x"), off.red("x")] {
        assert_eq!(s, "x");
    }
}
