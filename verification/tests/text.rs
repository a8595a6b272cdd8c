use terracotta_installer::path::{below, names_of, same_place};
use terracotta_installer::text::{
    among, bytes_in, comes_before, contains, ends_with, filled, join, lines_of, number, parse_u64,
    replace, same, sort_unique, split_on, starts_with, tail_after, trimmed, white_space, words_of,
};

fn strings(list: &[&str]) -> Vec<String> {
    list.iter().map(|s| s.to_string()).collect()
}

#[test]
fn white_space_is_what_unicode_says() {
    for u in 0..=0x10ffffu32 {
        if let Some(c) = char::from_u32(u) {
            assert_eq!(white_space(c), c.is_whitespace(), "{u:x}");
        }
    }
}

#[test]
fn words_and_trimming() {
    let s = " \u{a0}neovim\t git\n\u{3000}firefox ";
    assert_eq!(words_of(s), s.split_whitespace().collect::<Vec<_>>());
    assert_eq!(trimmed(s), s.trim());
    assert_eq!(words_of("   "), Vec::<String>::new());
    assert_eq!(trimmed(" \n"), "");
}

#[test]
fn lines_end_where_they_end() {
    for s in ["", "a", "a\n", "a\r\nb", "a\n\nb\n", "\n", "a\r", "a\rb\r\n\r\n"] {
        assert_eq!(lines_of(s), s.lines().collect::<Vec<_>>(), "{s:?}");
    }
}

#[test]
fn pieces_between_separators() {
    for s in ["", "/", "a/b", "/a//b/", "abc"] {
        assert_eq!(split_on(s, '/'), s.split('/').collect::<Vec<_>>(), "{s:?}");
        assert_eq!(tail_after(s, '/'), s.rsplit('/').next().unwrap(), "{s:?}");
        assert_eq!(replace(s, '/', '_'), s.replace('/', "_"), "{s:?}");
    }
}

#[test]
fn looking_for_text() {
    assert!(contains("Europe/Berlin", "Ber"));
    assert!(contains("abc", ""));
    assert!(!contains("ab", "abc"));
    assert!(starts_with("@kiln/gpu", "@kiln/"));
    assert!(!starts_with("kiln", "@kiln/"));
    assert!(ends_with("en_US.UTF-8", ".UTF-8"));
    assert!(!ends_with("UTF-8", ".UTF-8"));
    assert!(same("é", "é"));
    assert!(!same("e", "é"));
    assert!(among(&strings(&["a", "b"]), "b"));
    assert!(!among(&strings(&["a", "b"]), "c"));
    assert_eq!(bytes_in("é—"), 5);
}

#[test]
fn numbers_both_ways() {
    for n in [0, 9, 10, 1024, u64::MAX] {
        assert_eq!(number(n), n.to_string());
        assert_eq!(parse_u64(&n.to_string()), Some(n));
    }
    for s in ["", "+", "+7", "-1", " 1", "18446744073709551616", "007", "1a", "٣"] {
        assert_eq!(parse_u64(s), s.parse::<u64>().ok(), "{s:?}");
    }
}

#[test]
fn order_is_that_of_strings() {
    let list = ["b", "a", "", "é", "z", "aa", "\u{10000}", "\u{ffff}", "a"];
    for a in list {
        for b in list {
            assert_eq!(comes_before(a, b), a < b, "{a:?} {b:?}");
        }
    }
    let mut want = strings(&list);
    want.sort();
    want.dedup();
    assert_eq!(sort_unique(&strings(&list)), want);
}

#[test]
fn strings_strung_together() {
    assert_eq!(join(&strings(&[]), " "), "");
    assert_eq!(join(&strings(&["a"]), " "), "a");
    assert_eq!(join(&strings(&["a", "", "b"]), ", "), "a, , b");
    assert_eq!(filled('─', 3), "───");
    assert_eq!(filled(' ', 0), "");
}

/// Words strung together and taken apart again are the same words.
#[test]
fn words_survive_joining() {
    let words = strings(&["git", "neovim", "x"]);
    assert_eq!(words_of(&join(&words, " ")), words);
}

#[test]
fn paths_are_joined_like_paths() {
    for (dir, path) in [
        ("/mnt", "boot"),
        ("/mnt/", "boot"),
        ("", "boot"),
        ("/mnt", "/dev"),
        ("/mnt/etc/kiln", "."),
    ] {
        assert_eq!(below(dir, path), std::path::Path::new(dir).join(path).to_str().unwrap());
    }
    assert_eq!(names_of("/usr//share/./kiln/"), strings(&["usr", "share", "kiln"]));
    for (a, b) in [
        ("/usr/share", "/usr/share/"),
        ("/usr//share/.", "/usr/share"),
        ("/usr/share", "/usr"),
        ("usr/share", "/usr/share"),
        ("/", "/"),
        ("/a", "/b"),
    ] {
        let want = std::path::Path::new(a) == std::path::Path::new(b);
        assert_eq!(same_place(a, b), want, "{a} {b}");
    }
}
