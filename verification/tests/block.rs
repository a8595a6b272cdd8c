use terracotta_installer::block::{disks, human, mounted_on, pairs, Disk, Node};
use terracotta_installer::run::Failed;

fn disk(path: &str) -> Disk {
    Disk {
        path: path.into(),
        bytes: 0,
        model: String::new(),
        transport: String::new(),
        removable: false,
        busy: None,
    }
}

#[test]
fn partition_names_follow_the_kernel() {
    let sd = Disk {
        path: "/dev/sda".into(),
        bytes: 0,
        model: String::new(),
        transport: String::new(),
        removable: false,
        busy: None,
    };
    assert_eq!(sd.partition(1), "/dev/sda1");
    let nvme = Disk {
        path: "/dev/nvme0n1".into(),
        ..sd
    };
    assert_eq!(nvme.partition(3), "/dev/nvme0n1p3");
}

#[test]
fn pairs_parses_lsblk() {
    let m = pairs(r#"PATH="/dev/sda" SIZE="500107862016" TYPE="disk" MODEL="CT500MX500SSD1""#);
    assert_eq!(m.get("PATH").unwrap(), "/dev/sda");
    assert_eq!(m.get("SIZE").unwrap(), "500107862016");
    assert_eq!(m.get("MODEL").unwrap(), "CT500MX500SSD1");
}

fn node(kname: &str, parent: &str, mountpoint: &str) -> Node {
    Node {
        kname: kname.into(),
        parent: parent.into(),
        mountpoint: mountpoint.into(),
    }
}

#[test]
fn an_empty_mountpoint_is_not_a_reason() {
    let idle = [node("sda", "", ""), node("sda1", "sda", "")];
    assert!(mounted_on(&idle, "sda").is_none());
    let live = [
        node("sda", "", ""),
        node("sda1", "sda", "/run/archiso/bootmnt"),
    ];
    assert!(mounted_on(&live, "sda").is_some());
}

/// The case a direct-children check gets wrong: an encrypted or LVM root.
#[test]
fn a_mount_two_levels_down_still_rules_the_disk_out() {
    let luks = [
        node("nvme0n1", "", ""),
        node("nvme0n1p2", "nvme0n1", ""),
        node("dm-0", "nvme0n1p2", "/"),
    ];
    let why = mounted_on(&luks, "nvme0n1").expect("the running root rules its disk out");
    assert!(why.contains('/'), "{why}");
    // And it says nothing about a disk that is genuinely free.
    assert!(mounted_on(&luks, "sdb").is_none());
}

#[test]
fn active_swap_counts() {
    let swapping = [node("sda", "", ""), node("sda2", "sda", "[SWAP]")];
    assert!(mounted_on(&swapping, "sda").unwrap().contains("swap"));
}

/// A parent chain that loops must not hang the installer.
#[test]
fn a_cycle_terminates() {
    let bad = [node("a", "b", "/"), node("b", "a", "")];
    assert!(mounted_on(&bad, "zz").is_none());
}

#[test]
fn the_word_is_the_last_part_of_the_path() {
    assert_eq!(disk("/dev/nvme0n1").word(), "nvme0n1");
    assert_eq!(disk("sda").word(), "sda");
    assert_eq!(disk("/dev/").word(), "");
}

#[test]
fn an_empty_disk_path_has_no_digit_at_its_end() {
    assert_eq!(disk("").partition(2), "2");
    assert_eq!(disk("/dev/mmcblk0").partition(10), "/dev/mmcblk0p10");
}

#[test]
fn sizes_in_words() {
    assert_eq!(human(0), "0 B");
    assert_eq!(human(1023), "1023 B");
    assert_eq!(human(1024), "1.0K");
    assert_eq!(human(1536), "1.5K");
    assert_eq!(human(500 << 30), "500.0G");
    assert_eq!(human(500_107_862_016), "465.8G");
    let d = Disk { bytes: 4 << 30, ..disk("/dev/sda") };
    assert_eq!(d.size(), "4.0G");
}

/// One decimal of a size in doubles, as `format!` rounds it.
fn in_doubles(bytes: u64) -> String {
    let units: [&str; 5] = ["B", "K", "M", "G", "T"];
    let mut v = bytes as f64;
    let mut u = 0;
    while v >= 1024.0 && u + 1 < units.len() {
        v /= 1024.0;
        u += 1;
    }
    if u == 0 {
        format!("{bytes} B")
    } else {
        format!("{v:.1}{}", units[u])
    }
}

#[test]
fn sizes_agree_with_doubles() {
    let mut seed: u64 = 0x9e37_79b9_7f4a_7c15;
    let mut all: Vec<u64> = vec![0, 1, 1023, 1024, 1025, u64::MAX, u64::MAX - 1];
    for shift in 0..64 {
        for near in 0..5u64 {
            all.push((1u64 << shift).wrapping_add(near).wrapping_sub(2));
        }
    }
    for _ in 0..20000 {
        seed ^= seed << 13;
        seed ^= seed >> 7;
        seed ^= seed << 17;
        all.push(seed >> (seed % 64));
    }
    // Exact halves of a tenth, where rounding goes to the even neighbour.
    for k in 0..2000u64 {
        all.push(k * 1024 / 20);
        all.push((k * 2 + 1) * (1 << 30) / 20);
        all.push((k * 4 + 1) * (1 << 18));
    }
    for n in all {
        assert_eq!(human(n), in_doubles(n), "{n}");
    }
}

fn listing() -> String {
    [
        r#"PATH="/dev/sda" KNAME="sda" SIZE="500107862016" TYPE="disk" MODEL="CT500" TRAN="sata" RM="0" RO="0""#,
        r#"PATH="/dev/sdb" KNAME="sdb" SIZE="2000000000" TYPE="disk" MODEL="Tiny" TRAN="usb" RM="1" RO="0""#,
        r#"PATH="/dev/nvme0n1" KNAME="nvme0n1" SIZE="1000204886016" TYPE="disk" MODEL="Fast" TRAN="nvme" RM="0" RO="0""#,
        r#"PATH="/dev/loop0" KNAME="loop0" SIZE="1000204886016" TYPE="loop" MODEL="" TRAN="" RM="0" RO="1""#,
        r#"PATH="/dev/sr0" KNAME="sr0" SIZE="1000204886016" TYPE="rom" MODEL="" TRAN="" RM="1" RO="0""#,
        r#"PATH="/dev/zram0" KNAME="zram0" SIZE="8000000000" TYPE="disk" MODEL="" TRAN="" RM="0" RO="0""#,
    ]
    .join("\n")
}

#[test]
fn disks_come_largest_first_with_their_reasons() {
    let tree = [
        r#"KNAME="sda" PKNAME="" MOUNTPOINT="""#,
        r#"KNAME="nvme0n1" PKNAME="" MOUNTPOINT="""#,
        r#"KNAME="nvme0n1p2" PKNAME="nvme0n1" MOUNTPOINT="""#,
        r#"KNAME="dm-0" PKNAME="nvme0n1p2" MOUNTPOINT="/""#,
    ]
    .join("\n");
    let found = disks(&Ok(listing()), &Ok(tree)).unwrap();
    let paths: Vec<&str> = found.iter().map(|d| d.path.as_str()).collect();
    assert_eq!(paths, vec!["/dev/nvme0n1", "/dev/loop0", "/dev/sda", "/dev/sdb"]);
    assert!(found[0].busy.is_some());
    assert_eq!(found[1].busy.as_deref(), Some("read-only"));
    assert!(found[2].busy.is_none());
    assert_eq!(found[3].busy.as_deref(), Some("too small for a Kiln sysroot"));
    assert!(found[3].removable);
    assert_eq!(found[2].model, "CT500");
    assert_eq!(found[2].transport, "sata");
}

#[test]
fn a_listing_that_fails_is_said() {
    let failed = || Failed { what: "lsblk".into(), code: Some(1), signal: false, tail: vec![] };
    let e = disks(&Err(failed()), &Ok(String::new())).unwrap_err();
    assert_eq!(e, "cannot list block devices: lsblk exited 1");
    let e = disks(&Ok(listing()), &Err(failed())).unwrap_err();
    assert_eq!(e, "cannot list mounted filesystems: lsblk exited 1");
}
