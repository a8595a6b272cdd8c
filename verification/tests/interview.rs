use terracotta_installer::block::Disk;
use terracotta_installer::catalog::{extras, profiles, wanted_files, Library};
use terracotta_installer::interview::{
    ask, grants_sudo, why_not, Interview, Offer, Part, Turn, WHEEL_SUDO,
};
use terracotta_installer::keys::{Key, Nav};
use terracotta_installer::screens::{short, SCREENS};
use terracotta_installer::tui::Ui;

const UI: Ui = Ui { cols: 80, rows: 40 };

/// The other half: a `minimal` install that picks the module by hand.
#[test]
fn choosing_wheel_sudo_unlocks_the_optional_root_password() {
    let minimal = "@kiln/profiles/minimal";
    assert!(!grants_sudo(minimal, &[]));
    assert!(grants_sudo(minimal, &[WHEEL_SUDO.to_string()]));
}

fn strings(list: &[&str]) -> Vec<String> {
    list.iter().map(|s| s.to_string()).collect()
}

fn disk(path: &str, busy: Option<&str>) -> Disk {
    Disk {
        path: path.into(),
        bytes: 500 << 30,
        model: String::new(),
        transport: "sata".into(),
        removable: false,
        busy: busy.map(|s| s.to_string()),
    }
}

fn library() -> Library {
    let root = "/usr/share/kiln/modules";
    Library { root: root.into(), files: wanted_files(root) }
}

fn begin() -> Interview {
    ask(Offer {
        disks: vec![disk("/dev/sda", Some("in use")), disk("/dev/sdb", None), disk("/dev/sdc", None)],
        profiles: profiles(&library()),
        extras: extras(&library()),
        zones: strings(&["UTC", "Europe/Berlin", "Europe/Paris"]),
        locales: strings(&["en_US.UTF-8", "de_DE.UTF-8"]),
        maps: strings(&["us", "de"]),
    })
}

fn key(i: &mut Interview, k: Key) -> Turn {
    i.draw(&UI);
    i.press(Ok(k), true)
}

fn line(i: &mut Interview, text: &str) -> Turn {
    key(i, Key::ClearLine);
    for c in text.chars() {
        key(i, if c == ' ' { Key::Space } else { Key::Char(c) });
    }
    key(i, Key::Enter)
}

/// Typed without clearing the filter of a list.
fn pick(i: &mut Interview, text: &str) -> Turn {
    for c in text.chars() {
        key(i, Key::Char(c));
    }
    key(i, Key::Enter)
}

fn back(i: &mut Interview) -> Turn {
    i.press(Err(Nav::Back), true)
}

/// Up to the review, with a plain answer to everything.
fn answered() -> Interview {
    let mut i = begin();
    pick(&mut i, "sdc");
    pick(&mut i, "No");
    line(&mut i, "sdc");
    line(&mut i, "box");
    pick(&mut i, "berlin");
    pick(&mut i, "de_de");
    pick(&mut i, "de");
    pick(&mut i, "minimal");
    key(&mut i, Key::Enter);
    line(&mut i, "neovim git neovim");
    line(&mut i, "ada");
    line(&mut i, "secret");
    line(&mut i, "secret");
    line(&mut i, "toor123");
    line(&mut i, "toor123");
    i
}

#[test]
fn from_the_first_question_to_the_last() {
    let mut i = answered();
    assert_eq!(i.at, SCREENS - 1);
    assert_eq!(key(&mut i, Key::Enter), Turn::Finished);
    assert_eq!(i.at, SCREENS);
    let a = &i.answers;
    assert_eq!(a.disk.path, "/dev/sdc");
    assert!(!a.encrypt && a.passphrase.is_empty());
    assert_eq!(a.hostname, "box");
    assert_eq!(a.timezone, "Europe/Berlin");
    assert_eq!(a.locale, "de_DE.UTF-8");
    assert_eq!(a.keymap, "de");
    assert_eq!(a.profile, "@kiln/profiles/minimal");
    assert_eq!(a.packages, strings(&["git", "neovim"]));
    assert_eq!(a.username, "ada");
    assert_eq!(a.user_password, "secret");
    assert_eq!(a.root_password, "toor123");
}

#[test]
fn the_defaults() {
    let i = begin();
    let a = &i.answers;
    assert_eq!(a.hostname, "terracotta");
    assert_eq!(a.timezone, "UTC");
    assert_eq!(a.locale, "en_US.UTF-8");
    assert_eq!(a.keymap, "us");
    assert_eq!(a.profile, "@kiln/profiles/workstation");
    assert!(a.packages.is_empty() && a.username.is_empty() && a.luks_uuid.is_none());
    assert!(!a.modules.is_empty());
    assert_eq!(i.at, 0);
}

/// Esc from the last screen to the first, and the answers are still there.
#[test]
fn esc_goes_back_and_keeps_the_answers() {
    let mut i = answered();
    for at in (0..SCREENS - 1).rev() {
        assert_eq!(back(&mut i), Turn::Asking);
        assert_eq!(i.at, at);
    }
    back(&mut i);
    assert_eq!(i.at, 0);
    let before = i.answers.modules.clone();
    key(&mut i, Key::Enter);
    key(&mut i, Key::Enter);
    line(&mut i, "sdc");
    for _ in 0..8 {
        key(&mut i, Key::Enter);
    }
    assert_eq!(i.at, 11);
    let a = &i.answers;
    assert_eq!(a.disk.path, "/dev/sdc");
    assert_eq!(a.hostname, "box");
    assert_eq!(a.timezone, "Europe/Berlin");
    assert_eq!(a.locale, "de_DE.UTF-8");
    assert_eq!(a.keymap, "de");
    assert_eq!(a.profile, "@kiln/profiles/minimal");
    assert_eq!(a.modules, before);
    assert_eq!(a.packages, strings(&["git", "neovim"]));
    assert_eq!(a.username, "ada");
}

#[test]
fn ctrl_c_leaves_from_anywhere() {
    let mut i = begin();
    assert_eq!(i.press(Err(Nav::Quit), true), Turn::Left);
    let mut i = answered();
    assert_eq!(i.press(Err(Nav::Quit), true), Turn::Left);
}

/// A disk with anything mounted from it is shown, explained, and not
/// selectable.
#[test]
fn a_busy_disk_cannot_be_chosen() {
    let mut i = begin();
    let lines = i.draw(&UI);
    assert!(lines.iter().any(|l| l.contains("/dev/sda") && l.contains("in use")));
    assert!(!lines.last().unwrap().contains("esc"));
    pick(&mut i, "sda");
    assert_eq!(i.at, 0);
    for _ in 0..3 {
        key(&mut i, Key::Backspace);
    }
    key(&mut i, Key::Enter);
    assert_eq!(i.answers.disk.path, "/dev/sdb");
}

#[test]
fn erasing_means_typing_the_name() {
    let mut i = begin();
    key(&mut i, Key::Enter);
    key(&mut i, Key::Enter);
    assert_eq!(i.at, 2);
    let lines = i.draw(&UI);
    assert!(lines.iter().any(|l| l.contains("Erase /dev/sdb?")));
    assert!(lines.iter().any(|l| l.contains("500.0G · unknown model")));
    line(&mut i, "sda");
    assert_eq!(i.at, 2);
    line(&mut i, "sdb");
    assert_eq!(i.at, 3);
}

#[test]
fn encryption_asks_for_a_passphrase() {
    let mut i = begin();
    key(&mut i, Key::Enter);
    pick(&mut i, "Yes");
    assert!(i.part == Part::Passphrase && i.at == 1);
    // Esc from the passphrase returns to the question.
    back(&mut i);
    assert!(i.part == Part::Question && i.at == 1);
    assert!(i.answers.encrypt);
    // The answer is still there.
    key(&mut i, Key::Enter);
    assert!(i.part == Part::Passphrase);
    line(&mut i, "correct horse");
    line(&mut i, "correct horse");
    assert_eq!(i.at, 2);
    assert_eq!(i.answers.passphrase, "correct horse");
    let lines = i.draw(&UI);
    assert!(lines.iter().any(|l| l.contains("rest LUKS2 → ext4")));
    // And no forgets it.
    back(&mut i);
    pick(&mut i, "No");
    assert!(!i.answers.encrypt && i.answers.passphrase.is_empty());
}

#[test]
fn encryption_needs_cryptsetup() {
    let mut i = begin();
    key(&mut i, Key::Enter);
    key(&mut i, Key::Down);
    assert_eq!(i.press(Ok(Key::Enter), false), Turn::Asking);
    assert!(i.part == Part::Missing && i.at == 1);
    let lines = i.draw(&UI);
    assert!(lines.iter().any(|l| l.contains("`cryptsetup` is not on PATH")));
    assert!(lines.last().unwrap().contains("enter back to the question · ctrl-c quit"));
    assert_eq!(i.press(Ok(Key::Enter), false), Turn::Asking);
    assert!(i.part == Part::Question && i.at == 1);
    i.press(Ok(Key::Enter), false);
    assert!(i.part == Part::Missing);
    back(&mut i);
    assert!(i.part == Part::Question && i.at == 0);
}

/// The root password is optional whenever the configuration grants sudo.
#[test]
fn a_root_password_is_needed_without_sudo() {
    let mut i = answered();
    back(&mut i);
    assert_eq!(i.at, 12);
    let lines = i.draw(&UI);
    assert!(lines.iter().any(|l| l.contains("Required.")));
    key(&mut i, Key::Enter);
    assert_eq!(i.at, 12);
    for _ in 0..5 {
        back(&mut i);
    }
    assert_eq!(i.at, 7);
    key(&mut i, Key::Up);
    key(&mut i, Key::Enter);
    assert_eq!(i.answers.profile, "@kiln/profiles/server");
    key(&mut i, Key::Enter);
    key(&mut i, Key::Enter);
    key(&mut i, Key::Enter);
    line(&mut i, "secret");
    line(&mut i, "secret");
    let lines = i.draw(&UI);
    assert!(lines.iter().any(|l| l.contains("Optional.")));
    key(&mut i, Key::Enter);
    assert_eq!(i.at, 13);
    assert!(i.answers.root_password.is_empty());
    let lines = i.draw(&UI);
    assert!(lines.iter().any(|l| l.contains("locked — administer with sudo")));
}

#[test]
fn the_review_shows_everything_but_secrets() {
    let mut i = answered();
    let lines = i.draw(&UI);
    for expected in [
        "/dev/sdc",
        "500.0G — erased",
        "box",
        "Europe/Berlin",
        "de_DE.UTF-8  ·  keymap de",
        "profiles/minimal",
        "git neovim",
        "ada (wheel)",
        "password set",
    ] {
        assert!(lines.iter().any(|l| l.contains(expected)), "{expected}");
    }
    for hidden in ["secret", "toor123", "@kiln/"] {
        assert!(!lines.iter().any(|l| l.contains(hidden)), "{hidden}");
    }
}

#[test]
fn nothing_to_erase_is_a_reason_not_to_start() {
    let lib = library();
    assert_eq!(why_not(&Err("cannot list".into()), &lib).as_deref(), Some("cannot list"));
    assert_eq!(why_not(&Ok(vec![]), &lib).as_deref(), Some("no disks found"));
    assert_eq!(
        why_not(&Ok(vec![disk("/dev/sda", Some("in use"))]), &lib).as_deref(),
        Some(
            "every disk on this machine is in use or too small; terracotta-installer has nothing \
             it may erase"
        )
    );
    let empty = Library { root: "/nowhere".into(), files: vec![] };
    assert_eq!(
        why_not(&Ok(vec![disk("/dev/sda", None)]), &empty).as_deref(),
        Some(
            "no profiles in the module library at /nowhere — the `kiln` package ships them at \
             /usr/share/kiln/modules"
        )
    );
    assert_eq!(why_not(&Ok(vec![disk("/dev/sda", None)]), &lib), None);
}

#[test]
fn a_namespace_is_taken_off_once() {
    assert_eq!(short("@kiln/gpu/amd"), "gpu/amd");
    assert_eq!(short("@kiln/@kiln/x"), "@kiln/x");
    assert_eq!(short("gpu/amd"), "gpu/amd");
}

#[test]
fn a_disk_says_what_it_is() {
    let mut usb = disk("/dev/sdd", None);
    usb.removable = true;
    usb.model = "Stick".into();
    let mut bare = disk("/dev/sde", None);
    bare.transport = String::new();
    let mut i = ask(Offer {
        disks: vec![usb, bare],
        profiles: profiles(&library()),
        extras: Vec::new(),
        zones: strings(&["UTC"]),
        locales: strings(&["C"]),
        maps: strings(&["us"]),
    });
    let lines = i.draw(&UI);
    assert!(lines.iter().any(|l| l.contains("500.0G · Stick · removable")));
    assert!(lines.iter().any(|l| l.contains("500.0G · —\x1b")));
    key(&mut i, Key::Enter);
    key(&mut i, Key::Enter);
    let lines = i.draw(&UI);
    assert!(lines.iter().any(|l| l.contains("This is a removable disk.")));
}

/// There is nothing to toggle in a library without extra modules.
#[test]
fn no_extra_modules_is_no_trouble() {
    let mut i = ask(Offer {
        disks: vec![disk("/dev/sdb", None)],
        profiles: profiles(&library()),
        extras: Vec::new(),
        zones: strings(&["UTC"]),
        locales: strings(&["C"]),
        maps: strings(&["us"]),
    });
    key(&mut i, Key::Enter);
    key(&mut i, Key::Enter);
    line(&mut i, "sdb");
    for _ in 0..5 {
        key(&mut i, Key::Enter);
    }
    assert_eq!(i.at, 8);
    assert_eq!(key(&mut i, Key::Space), Turn::Asking);
    key(&mut i, Key::Enter);
    assert_eq!(i.at, 9);
    assert!(i.answers.modules.is_empty());
}

/// Sudo is asked about only where the profile does not grant it already.
#[test]
fn covered_modules_are_not_asked_about() {
    let mut i = answered();
    for _ in 0..5 {
        back(&mut i);
    }
    assert_eq!(i.at, 8);
    let tall = Ui { cols: 80, rows: 90 };
    assert!(i.draw(&tall).iter().any(|l| l.contains("wheel-sudo")));
    for _ in 0..60 {
        key(&mut i, Key::Down);
    }
    key(&mut i, Key::Up);
    key(&mut i, Key::Space);
    key(&mut i, Key::Enter);
    assert!(i.answers.modules.contains(&WHEEL_SUDO.to_string()));
    back(&mut i);
    back(&mut i);
    assert_eq!(i.at, 7);
    key(&mut i, Key::Up);
    key(&mut i, Key::Enter);
    assert_eq!(i.answers.profile, "@kiln/profiles/server");
    assert!(!i.draw(&tall).iter().any(|l| l.contains("wheel-sudo")));
    key(&mut i, Key::Enter);
    assert!(!i.answers.modules.contains(&WHEEL_SUDO.to_string()));
    assert!(!i.answers.modules.is_empty());
}

#[test]
fn a_finished_interview_holds_no_uuid() {
    let mut i = answered();
    assert_eq!(key(&mut i, Key::Enter), Turn::Finished);
    assert!(i.answers.root_uuid.is_empty());
    assert!(i.answers.luks_uuid.is_none());
}
