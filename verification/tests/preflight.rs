use terracotta_installer::preflight::{
    candidates, check, library_file, network, report, which, Facts, Network, NEEDED,
};

fn strings(list: &[&str]) -> Vec<String> {
    list.iter().map(|s| s.to_string()).collect()
}

fn fine() -> Facts {
    Facts {
        root: true,
        uefi: true,
        programs: NEEDED.iter().map(|p| p.0.to_string()).collect(),
        library: true,
        online: true,
    }
}

#[test]
fn all_is_well() {
    assert!(check("/modules", &fine()).is_empty());
}

#[test]
fn every_requirement_is_checked() {
    let mut f = fine();
    f.root = false;
    f.uefi = false;
    f.library = false;
    f.online = false;
    f.programs.retain(|p| p != "sgdisk" && p != "wipefs");
    let found: Vec<(String, String)> =
        check("/modules", &f).into_iter().map(|p| (p.what, p.fix)).collect();
    let want = [
        (
            "terracotta-installer is not running as root",
            "it partitions a disk and runs a build; run it with sudo",
        ),
        (
            "this machine did not boot in UEFI mode",
            "Kiln's bootloader arrangement is UEFI-only; switch the firmware out of legacy/CSM \
             mode and boot the installer again",
        ),
        ("`sgdisk` is not on PATH", "pacman -S gptfdisk"),
        ("`wipefs` is not on PATH", "pacman -S util-linux"),
        (
            "no Kiln module library at /modules",
            "install the `kiln` package, or point KILN_MODULE_DIR at a Kiln checkout's ./modules",
        ),
        (
            "no network",
            "Kiln resolves packages against real Arch mirrors; connect first (`iwctl`, or plug \
             in a cable) and start again",
        ),
    ];
    let want: Vec<(String, String)> =
        want.iter().map(|(a, b)| (a.to_string(), b.to_string())).collect();
    assert_eq!(found, want);
}

#[test]
fn programs_are_looked_for_on_the_path() {
    assert_eq!(
        candidates("/usr/bin:/bin::rel", "kiln"),
        strings(&["/usr/bin/kiln", "/bin/kiln", "kiln", "rel/kiln"])
    );
    let path = Some("/usr/bin:/bin".to_string());
    assert_eq!(which(&path, "kiln", &[]), None);
    assert_eq!(
        which(&path, "kiln", &strings(&["/bin/kiln", "/usr/bin/kiln"])).as_deref(),
        Some("/usr/bin/kiln")
    );
    assert_eq!(which(&path, "kiln", &strings(&["/bin/kiln"])).as_deref(), Some("/bin/kiln"));
    assert_eq!(which(&None, "kiln", &strings(&["/bin/kiln"])), None);
    assert_eq!(library_file("/m"), "/m/profiles/minimal.toml");
}

/// Where NetworkManager is running there is one shot at connecting.
#[test]
fn one_shot_at_the_network() {
    assert_eq!(network(true, false, true, false), Network::Settled { online: true });
    assert_eq!(network(false, false, true, false), Network::Connect);
    assert_eq!(network(false, false, true, true), Network::Settled { online: false });
    assert_eq!(network(true, false, true, true), Network::Settled { online: true });
    assert_eq!(network(false, false, false, false), Network::Settled { online: false });
    assert_eq!(network(false, true, true, false), Network::Settled { online: false });
}

#[test]
fn problems_stop_the_installer() {
    let (lines, stops) = report(&[], false);
    assert!(lines.is_empty() && !stops);
    let mut f = fine();
    f.root = false;
    f.online = false;
    let problems = check("/modules", &f);
    let (lines, stops) = report(&problems, false);
    assert!(stops);
    assert_eq!(lines.len(), 9);
    assert_eq!(lines[1], "\x1b[1mterracotta-installer cannot start.\x1b[0m");
    assert_eq!(
        lines[3],
        "  \x1b[31m·\x1b[0m \x1b[1mterracotta-installer is not running as root\x1b[0m"
    );
    assert_eq!(
        lines[4],
        "    \x1b[2mit partitions a disk and runs a build; run it with sudo\x1b[0m"
    );
    let (lines, stops) = report(&problems, true);
    assert!(!stops);
    assert_eq!(
        lines,
        strings(&["\x1b[2m--dry-run: continuing past 2 preflight problem(s).\x1b[0m"])
    );
}
