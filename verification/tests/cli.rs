use terracotta_installer::block::Disk;
use terracotta_installer::cli::{
    die, done, done_rows, exit_code, failed, failed_rows, format_duration, leave, parse,
    print_failed, summary, unmount_best_effort, Command, Leave, USAGE,
};
use terracotta_installer::interview::Answers;
use terracotta_installer::keys::Nav;
use terracotta_installer::run::Failed;

fn strings(list: &[&str]) -> Vec<String> {
    list.iter().map(|s| s.to_string()).collect()
}

fn installs(argv: &[&str], env: Option<&str>) -> (bool, String) {
    match parse(&strings(argv), &env.map(|s| s.to_string())) {
        Command::Install { dry_run, module_root } => (dry_run, module_root),
        _ => panic!("not an install"),
    }
}

fn wrong(argv: &[&str]) -> String {
    match parse(&strings(argv), &None) {
        Command::Wrong { message } => message,
        _ => panic!("nothing wrong"),
    }
}

#[test]
fn arguments() {
    assert_eq!(installs(&[], None), (false, "/usr/share/kiln/modules".into()));
    assert_eq!(installs(&[], Some("/env")), (false, "/env".into()));
    assert_eq!(installs(&["--dry-run"], None), (true, "/usr/share/kiln/modules".into()));
    assert_eq!(installs(&["--module-root", "/m", "--dry-run"], Some("/env")), (true, "/m".into()));
    assert_eq!(installs(&["--module-root", "--dry-run"], None), (false, "--dry-run".into()));
    assert!(matches!(parse(&strings(&["-h"]), &None), Command::Help));
    assert!(matches!(parse(&strings(&["--dry-run", "--help", "--bad"]), &None), Command::Help));
    assert!(matches!(parse(&strings(&["--version"]), &None), Command::Version));
    assert_eq!(wrong(&["--module-root"]), "--module-root needs a path");
    assert_eq!(wrong(&["--bad", "--help"]), "unknown option `--bad`; try --help");
    assert_eq!(die("no"), "\x1b[31merror\x1b[0m no");
    assert!(USAGE.starts_with("terracotta-installer — install Terracotta Linux on a disk\n\n"));
    assert!(USAGE.ends_with("between\nthem.\n"));
}

fn failure(what: &str) -> Failed {
    Failed { what: what.into(), code: Some(1), signal: false, tail: strings(&["last words"]) }
}

#[test]
fn exit_codes_tell_a_failed_build() {
    assert_eq!(exit_code(&failure("kiln build")), 3);
    assert_eq!(exit_code(&failure("kiln builder")), 3);
    assert_eq!(exit_code(&failure("kiln deploy 1")), 4);
    assert_eq!(exit_code(&failure("mkfs.fat")), 4);
}

#[test]
fn durations() {
    assert_eq!(format_duration(0), "0s");
    assert_eq!(format_duration(59), "59s");
    assert_eq!(format_duration(60), "1m00s");
    assert_eq!(format_duration(605), "10m05s");
    assert_eq!(format_duration(3671), "61m11s");
}

fn answers() -> Answers {
    Answers {
        disk: Disk {
            path: "/dev/sda".into(),
            bytes: 0,
            model: String::new(),
            transport: String::new(),
            removable: false,
            busy: None,
        },
        hostname: "box".into(),
        timezone: String::new(),
        locale: String::new(),
        keymap: String::new(),
        profile: String::new(),
        modules: vec![],
        packages: vec![],
        username: "ada".into(),
        user_password: String::new(),
        root_password: String::new(),
        encrypt: false,
        passphrase: String::new(),
        root_uuid: String::new(),
        luks_uuid: None,
    }
}

#[test]
fn the_last_page() {
    let page = done(false, &answers(), 61);
    assert_eq!(page.title, "Installed");
    assert_eq!(page.step, (0, 0));
    assert_eq!(page.note[0], "\x1b[2mfinished in 1m01s\x1b[0m");
    assert_eq!(page.note[2], "\x1b[32mGeneration 1 is on /dev/sda and set to boot.\x1b[0m");
    assert_eq!(page.note[5], "  \x1b[2mfirst user\x1b[0m     ada (wheel)");
    assert_eq!(page.note[6], "  \x1b[2mhostname\x1b[0m       box");
    assert_eq!(
        page.note.last().unwrap(),
        "Remove the installation medium, then choose below."
    );
    assert_eq!(page.help.as_deref(), Some("↑↓ move · enter select"));
    let page = done(true, &answers(), 5);
    assert_eq!(page.title, "Dry run complete");
    assert!(page.note[2].contains("Nothing was written."));
    assert_eq!(page.note[5], "\x1b[2mGeneration 1 would be on /dev/sda and set to boot.\x1b[0m");
    assert_eq!(page.note.last().unwrap(), "Run without --dry-run to do it for real.");
    assert_eq!(page.help.as_deref(), Some("enter · leave the installer"));
    assert_eq!(done_rows().len(), 2);
    assert_eq!(failed_rows().len(), 3);
    assert_eq!(failed_rows()[2].label, "Unmount and exit to a shell");
}

#[test]
fn a_failure_is_summed_up() {
    let log = Some("/var/log/x".to_string());
    let lines = summary(&failure("mkfs.fat"), &log);
    assert_eq!(
        lines,
        strings(&[
            "\x1b[1mmkfs.fat exited 1\x1b[0m",
            "",
            "\x1b[2mlast words\x1b[0m",
            "",
            "Everything that ran is in \x1b[1m/var/log/x\x1b[0m.",
            "\x1b[2mOn a live medium that is tmpfs — copy it somewhere before rebooting.\x1b[0m",
            "",
            "\x1b[2mThe disk is in whatever state the failing step left it; running\x1b[0m",
            "\x1b[2mterracotta-installer again starts from an erase, which is a clean slate.\x1b[0m",
        ])
    );
    let lines = summary(&failure("mkfs.fat"), &None);
    assert_eq!(
        lines[4],
        "\x1b[33mNothing was logged: /var/log/terracotta-installer.log could not be opened for \
         writing.\x1b[0m"
    );
    let page = failed(&failure("mkfs.fat"), &log);
    assert_eq!(page.title, "The install failed");
    assert_eq!(page.note[0], "");
    assert_eq!(page.note[1..], summary(&failure("mkfs.fat"), &log));
    assert_eq!(page.help.as_deref(), Some("↑↓ move · enter select"));
    let printed = print_failed(&failure("mkfs.fat"), &log);
    assert_eq!(printed[1], "\x1b[31m\x1b[1mThe install failed.\x1b[0m");
    assert_eq!(printed[3], "  \x1b[1mmkfs.fat exited 1\x1b[0m");
    assert_eq!(printed.len(), 3 + 9);
}

#[test]
fn ways_to_leave() {
    assert_eq!(leave(false, Ok(0)), Leave::Reboot);
    assert_eq!(leave(false, Ok(1)), Leave::Shell);
    assert_eq!(leave(false, Err(Nav::Back)), Leave::Shell);
    assert_eq!(leave(true, Ok(0)), Leave::Reboot);
    assert_eq!(leave(true, Ok(1)), Leave::Shell);
    assert_eq!(leave(true, Ok(2)), Leave::UnmountThenShell);
    assert_eq!(leave(true, Err(Nav::Quit)), Leave::Shell);
    assert_eq!(
        unmount_best_effort(false),
        vec![strings(&["umount", "--recursive", "--lazy", "/mnt"])]
    );
    assert_eq!(unmount_best_effort(true)[1], strings(&["cryptsetup", "close", "root"]));
}
