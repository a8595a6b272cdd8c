use terracotta_installer::rules::{Alphabet, Check};

fn complaint(check: Check, s: &str) -> String {
    check.complaint(s).unwrap_or_default()
}

#[test]
fn hostnames() {
    assert_eq!(complaint(Check::Hostname, "terracotta"), "");
    assert_eq!(complaint(Check::Hostname, "a-1"), "");
    assert_eq!(complaint(Check::Hostname, ""), "one to sixty-three characters");
    assert_eq!(complaint(Check::Hostname, &"x".repeat(63)), "");
    assert_eq!(complaint(Check::Hostname, &"x".repeat(64)), "one to sixty-three characters");
    assert_eq!(complaint(Check::Hostname, &"é".repeat(32)), "one to sixty-three characters");
    assert_eq!(complaint(Check::Hostname, "é"), "letters, digits and hyphens only");
    assert_eq!(complaint(Check::Hostname, "a b"), "letters, digits and hyphens only");
    assert_eq!(complaint(Check::Hostname, "-a"), "cannot begin or end with a hyphen");
    assert_eq!(complaint(Check::Hostname, "a-"), "cannot begin or end with a hyphen");
}

#[test]
fn package_names() {
    assert_eq!(complaint(Check::Packages, ""), "");
    assert_eq!(complaint(Check::Packages, " neovim  gtk4 lib32-x@1.0_+ "), "");
    assert_eq!(complaint(Check::Packages, "a b\"c d\\e"), "`b\"c` is not a package name");
    assert_eq!(complaint(Check::Packages, "d\\e"), "`d\\e` is not a package name");
}

#[test]
fn usernames() {
    assert_eq!(complaint(Check::Username, "ada"), "");
    assert_eq!(complaint(Check::Username, "_a-9"), "");
    assert_eq!(complaint(Check::Username, ""), "one to thirty-two characters");
    assert_eq!(complaint(Check::Username, &"x".repeat(33)), "one to thirty-two characters");
    assert_eq!(complaint(Check::Username, "root"), "root already exists");
    assert_eq!(
        complaint(Check::Username, "9a"),
        "must start with a lowercase letter or an underscore"
    );
    assert_eq!(
        complaint(Check::Username, "aB"),
        "lowercase letters, digits, underscore and hyphen only"
    );
}

#[test]
fn passwords() {
    let needed = || Check::Password { allow_empty: false };
    let optional = || Check::Password { allow_empty: true };
    assert_eq!(complaint(needed(), ""), "a password is required");
    assert_eq!(complaint(optional(), ""), "");
    assert_eq!(complaint(needed(), "12345"), "at least six characters");
    assert_eq!(complaint(optional(), "12345"), "at least six characters");
    assert_eq!(complaint(needed(), "123456"), "");
}

#[test]
fn the_word_itself() {
    let word = || Check::Word { word: "sda".into() };
    assert_eq!(complaint(word(), "sda"), "");
    assert_eq!(complaint(word(), "sdb"), "that is not `sda`");
    assert_eq!(complaint(Check::Anything, "sdb"), "");
}

#[test]
fn alphabets_agree_with_std() {
    for u in 0..0x2000u32 {
        if let Some(c) = char::from_u32(u) {
            assert_eq!(Alphabet::Hostname.has(c), c.is_ascii_alphanumeric() || c == '-');
            assert_eq!(
                Alphabet::Package.has(c),
                c.is_ascii_alphanumeric() || "@._+-".contains(c)
            );
            assert_eq!(
                Alphabet::Username.has(c),
                c.is_ascii_lowercase() || c.is_ascii_digit() || "_-".contains(c)
            );
        }
    }
    assert!(Alphabet::Username.spelled(""));
    assert!(!Alphabet::Package.spelled("a b"));
}
