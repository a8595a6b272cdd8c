use terracotta_installer::block::Disk;
use terracotta_installer::catalog::{wanted_files, Library};
use terracotta_installer::interview::Answers;
use terracotta_installer::plan::staged_config;
use terracotta_installer::run::{Failed, Runner};
use terracotta_installer::steps::{deployment, Installer, Job, Outcome, STEPS};

#[test]
fn every_step_has_a_name() {
    assert_eq!(STEPS.len(), 11);
    assert_eq!(STEPS[0], "partition");
    assert_eq!(STEPS[STEPS.len() - 1], "finish");
}

#[test]
fn a_missing_deployment_is_a_message_not_a_panic() {
    let missing = Err("No such file or directory (os error 2)".to_string());
    let e = deployment("/nonexistent-sysroot", false, &missing).unwrap_err();
    assert!(e.tail[0].contains("cannot read"), "{:?}", e.tail);
}

/// The configuration is written on the physical root and does not stay there:
/// the `etc` step is what moves it, so it has to come after the deploy.
#[test]
fn the_config_is_staged_on_the_sysroot_and_installed_in_the_deployment() {
    assert_eq!(staged_config(), "/mnt/etc/kiln");
    let at = |name: &str| STEPS.iter().position(|s| *s == name).expect(name);
    assert!(at("configure") < at("build"));
    assert!(at("deploy") < at("etc"));
}

/// The bootloader step cannot precede the deploy, because `grub-mkconfig` reads
/// `/etc/grub.d` out of a deployment that does not exist until then.
#[test]
fn the_bootloader_comes_after_the_deploy() {
    let at = |name: &str| STEPS.iter().position(|s| *s == name).expect(name);
    assert!(at("sysroot") < at("build"));
    assert!(at("build") < at("deploy"));
    assert!(at("deploy") < at("bootloader"));
}

fn strings(list: &[&str]) -> Vec<String> {
    list.iter().map(|s| s.to_string()).collect()
}

#[test]
fn exactly_one_deployment_is_expected() {
    let at = "/mnt/ostree/deploy/kiln/deploy";
    assert_eq!(
        deployment("/mnt", false, &Ok(strings(&["/mnt/x/abc.0"]))).unwrap(),
        "/mnt/x/abc.0"
    );
    let e = deployment("/mnt", false, &Ok(vec![])).unwrap_err();
    assert_eq!(e.what, "locating the deployment");
    assert_eq!(
        e.tail,
        vec![format!(
            "no deployment under {at} — `kiln deploy 1` reported success but wrote nothing"
        )]
    );
    let e = deployment("/mnt", false, &Ok(strings(&["a", "b"]))).unwrap_err();
    assert_eq!(
        e.tail,
        vec![format!(
            "2 deployments under {at} on a disk that was empty; refusing to guess which one GRUB \
             should be installed against"
        )]
    );
    let e = deployment("/mnt", false, &Err("denied".into())).unwrap_err();
    assert_eq!(e.tail, vec![format!("cannot read {at}: denied")]);
    assert_eq!(
        deployment("/mnt", true, &Err("denied".into())).unwrap(),
        format!("{at}/{}.0", "0".repeat(64))
    );
}

fn answers(encrypt: bool) -> Answers {
    Answers {
        disk: Disk {
            path: "/dev/nvme0n1".into(),
            bytes: 500 << 30,
            model: "test".into(),
            transport: "nvme".into(),
            removable: false,
            busy: None,
        },
        hostname: "box".into(),
        timezone: "Europe/Berlin".into(),
        locale: "en_US.UTF-8".into(),
        keymap: "us".into(),
        profile: "@kiln/profiles/minimal".into(),
        modules: vec![],
        packages: vec![],
        username: "ada".into(),
        user_password: "user-pass".into(),
        root_password: "root-pass".into(),
        encrypt,
        passphrase: if encrypt { "pass-phrase".into() } else { String::new() },
        root_uuid: String::new(),
        luks_uuid: None,
    }
}

fn library() -> Library {
    let root = "/usr/share/kiln/modules";
    Library { root: root.into(), files: wanted_files(root) }
}

fn install(dry_run: bool, a: Answers) -> Installer {
    Installer::install(Runner::new(dry_run, true), library(), a)
}

fn refused(what: &str) -> Outcome {
    Outcome::Done(Err(Failed { what: what.into(), code: Some(1), signal: false, tail: vec![] }))
}

/// One line for each job, in order; `fails` names the commands that fail.
fn play(i: &mut Installer, fails: &[&str]) -> Vec<String> {
    let mut seen = Vec::new();
    loop {
        match i.next() {
            Job::Run(x) => {
                let mut line = x.argv.join(" ");
                if let Some(t) = &x.stdin {
                    line.push_str(&format!(" <<< {}", t.len()));
                }
                let bad = fails.iter().any(|f| line.starts_with(f));
                seen.push(line);
                i.report(if bad { refused(&x.what) } else { Outcome::Done(Ok(())) });
            }
            Job::Ask { argv } => {
                seen.push(format!("? {}", argv.join(" ")));
                let id = format!(" id-of-{} \n", argv[argv.len() - 1]);
                i.report(Outcome::Answered(Ok(id)));
            }
            Job::Write(w) => {
                seen.push(format!("> {}", w.at));
                i.report(Outcome::Done(Ok(())));
            }
            Job::List { dir } => {
                seen.push(format!("ls {dir}"));
                i.report(Outcome::Listed(Ok(strings(&["/mnt/dep"]))));
            }
            Job::Finished => {
                seen.push("finished".into());
                return seen;
            }
            Job::Failed => {
                seen.push("failed".into());
                return seen;
            }
        }
    }
}

const BINDS: [&str; 14] = [
    "mkdir -p /mnt/dep/sysroot",
    "mount --bind /mnt /mnt/dep/sysroot",
    "mkdir -p /mnt/dep/boot",
    "mount --rbind /mnt/boot /mnt/dep/boot",
    "mkdir -p /mnt/dep/var",
    "mount --bind /mnt/ostree/deploy/kiln/var /mnt/dep/var",
    "mkdir -p /mnt/dep/dev",
    "mount --rbind /dev /mnt/dep/dev",
    "mkdir -p /mnt/dep/proc",
    "mount --rbind /proc /mnt/dep/proc",
    "mkdir -p /mnt/dep/sys",
    "mount --rbind /sys /mnt/dep/sys",
    "mkdir -p /mnt/dep/run",
    "mount --rbind /run /mnt/dep/run",
];

const UNBINDS: [&str; 7] = [
    "umount --recursive --lazy /mnt/dep/run",
    "umount --recursive --lazy /mnt/dep/sys",
    "umount --recursive --lazy /mnt/dep/proc",
    "umount --recursive --lazy /mnt/dep/dev",
    "umount --recursive --lazy /mnt/dep/var",
    "umount --recursive --lazy /mnt/dep/boot",
    "umount --recursive --lazy /mnt/dep/sysroot",
];

fn real_run() -> Vec<&'static str> {
    let mut want = vec![
        "wipefs --all /dev/nvme0n1",
        "sgdisk --zap-all /dev/nvme0n1",
        "sgdisk --new=1:0:+1024M --typecode=1:ef00 --change-name=1:EFI system partition \
         --new=2:0:+1024M --typecode=2:8300 --change-name=2:kiln-boot --new=3:0:0 \
         --typecode=3:8300 --change-name=3:kiln-root /dev/nvme0n1",
        "partprobe /dev/nvme0n1",
        "udevadm settle",
        "mkfs.fat -F 32 -n KILN-ESP /dev/nvme0n1p1",
        "mkfs.ext4 -F -L kiln-boot /dev/nvme0n1p2",
        "mkfs.ext4 -F -L kiln-root /dev/nvme0n1p3",
        "udevadm settle",
        "? blkid -s UUID -o value /dev/nvme0n1p1",
        "? blkid -s UUID -o value /dev/nvme0n1p2",
        "? blkid -s UUID -o value /dev/nvme0n1p3",
        "umount /dev/nvme0n1p1",
        "umount /dev/nvme0n1p2",
        "umount /dev/nvme0n1p3",
        "mkdir -p /mnt",
        "mount /dev/nvme0n1p3 /mnt",
        "mkdir -p /mnt/boot",
        "mount /dev/nvme0n1p2 /mnt/boot",
        "mkdir -p /mnt/boot/efi",
        "mount /dev/nvme0n1p1 /mnt/boot/efi",
        "kiln sysroot init /mnt",
        "> /mnt/etc/kiln/system.toml",
        "kiln --sysroot /mnt --config /mnt/etc/kiln build",
        "kiln --sysroot /mnt deploy 1",
        "ls /mnt/ostree/deploy/kiln/deploy",
        "> /mnt/dep/etc/fstab",
        "mkdir -p /mnt/dep/etc/kiln",
        "cp -a /mnt/etc/kiln/. /mnt/dep/etc/kiln",
        "rm -r /mnt/etc/kiln",
        "rmdir --ignore-fail-on-non-empty /mnt/etc",
    ];
    want.extend(BINDS);
    want.extend([
        "chroot /mnt/dep grub-install --target=x86_64-efi --efi-directory=/boot/efi \
         --boot-directory=/boot --removable",
        "chroot /mnt/dep grub-install --target=x86_64-efi --efi-directory=/boot/efi \
         --boot-directory=/boot --bootloader-id=kiln",
        "chroot /mnt/dep grub-mkconfig -o /boot/grub/grub.cfg",
        "chroot /mnt/dep mv /boot/grub/grub.cfg /boot/loader/grub.cfg",
        "chroot /mnt/dep ln -sf ../loader/grub.cfg /boot/grub/grub.cfg",
    ]);
    want.extend(UNBINDS);
    want.extend(BINDS);
    want.extend([
        "chroot /mnt/dep mkdir -p -m 0755 /var/home",
        "chroot /mnt/dep mkdir -p -m 0700 /var/roothome",
        "chroot /mnt/dep systemd-firstboot --force --hostname=box --timezone=Europe/Berlin",
        "chroot /mnt/dep useradd --create-home --groups wheel --shell /bin/bash ada",
        "chroot /mnt/dep chpasswd <<< 14",
        "chroot /mnt/dep chpasswd <<< 15",
    ]);
    want.extend(UNBINDS);
    want.extend(["umount --recursive /mnt", "finished"]);
    want
}

#[test]
fn the_whole_install() {
    let mut i = install(false, answers(false));
    assert_eq!(play(&mut i, &[]), real_run());
    assert_eq!(i.at, 11);
    assert_eq!(i.progress.at, 11);
    assert_eq!(i.progress.detail, "");
    assert!(!i.progress.failed);
    assert_eq!(i.answers.root_uuid, "id-of-/dev/nvme0n1p3");
    assert!(i.answers.luks_uuid.is_none());
}

#[test]
fn what_may_fail_changes_nothing() {
    let mut i = install(false, answers(false));
    let seen = play(
        &mut i,
        &[
            "umount /dev/nvme0n1",
            "rmdir",
            "umount --recursive --lazy",
            "chroot /mnt/dep grub-install --target=x86_64-efi --efi-directory=/boot/efi \
             --boot-directory=/boot --bootloader-id=kiln",
        ],
    );
    assert_eq!(seen, real_run());
    assert!(i.failure.is_none());
}

#[test]
fn a_missing_boot_entry_is_said() {
    let mut i = install(false, answers(false));
    let mut told = 0;
    loop {
        match i.next() {
            Job::Run(x) => {
                let bad = x.what == "grub-install";
                i.report(if bad { refused("grub-install") } else { Outcome::Done(Ok(())) });
                if bad {
                    let last = i.progress.tail.back().unwrap();
                    assert!(last.starts_with("  no UEFI boot entry was written"), "{last}");
                    assert!(last.ends_with("\\EFI\\BOOT\\BOOTX64.EFI"), "{last}");
                    told += 1;
                }
            }
            Job::Ask { .. } => i.report(Outcome::Answered(Ok("id".into()))),
            Job::Write(_) => i.report(Outcome::Done(Ok(()))),
            Job::List { .. } => i.report(Outcome::Listed(Ok(strings(&["/mnt/dep"])))),
            Job::Finished | Job::Failed => break,
        }
    }
    assert_eq!(told, 1);
    assert!(i.failure.is_none());
}

/// A dry run goes through the same commands and files, starts none of them and
/// asks nothing.
#[test]
fn a_dry_run_shows_the_plan() {
    let mut i = install(true, answers(false));
    let dep = format!("/mnt/ostree/deploy/kiln/deploy/{}.0", "0".repeat(64));
    let mut seen = Vec::new();
    loop {
        match i.next() {
            Job::Run(x) => {
                assert!(!x.executes);
                let mut line = x.argv.join(" ");
                if let Some(t) = &x.stdin {
                    line.push_str(&format!(" <<< {}", t.len()));
                }
                seen.push(line);
                i.report(Outcome::Done(Ok(())));
            }
            Job::Write(w) => {
                assert!(!w.executes);
                if w.at == "/mnt/etc/kiln/system.toml" {
                    assert!(w.content.contains("root=UUID=dry-run-uuid-for-_dev_nvme0n1p3"));
                }
                seen.push(format!("> {}", w.at));
                i.report(Outcome::Done(Ok(())));
            }
            Job::Finished => break,
            Job::Ask { .. } | Job::List { .. } | Job::Failed => panic!("not in a dry run"),
        }
    }
    let want: Vec<String> = real_run()
        .iter()
        .filter(|l| !l.starts_with("? ") && !l.starts_with("ls ") && **l != "finished")
        .map(|l| l.replace("/mnt/dep", &dep))
        .collect();
    assert_eq!(seen, want);
}

#[test]
fn an_encrypted_root_is_made_opened_and_closed() {
    let mut i = install(false, answers(true));
    let seen = play(&mut i, &[]);
    assert_eq!(
        seen[5..12],
        [
            "cryptsetup luksFormat --type luks2 --batch-mode --key-file=- /dev/nvme0n1p3 <<< 11",
            "? cryptsetup luksUUID /dev/nvme0n1p3",
            "cryptsetup open --key-file=- /dev/nvme0n1p3 root <<< 11",
            "mkfs.fat -F 32 -n KILN-ESP /dev/nvme0n1p1",
            "mkfs.ext4 -F -L kiln-boot /dev/nvme0n1p2",
            "mkfs.ext4 -F -L kiln-root /dev/mapper/root",
            "udevadm settle",
        ]
    );
    assert!(seen.contains(&"mount /dev/mapper/root /mnt".to_string()));
    assert_eq!(
        seen[seen.len() - 3..],
        ["umount --recursive /mnt", "cryptsetup close root", "finished"]
    );
    assert_eq!(i.answers.luks_uuid.as_deref(), Some("id-of-/dev/nvme0n1p3"));
    let mut dry = install(true, answers(true));
    let plan = play(&mut dry, &[]);
    assert!(plan.iter().all(|l| !l.starts_with("? ")));
    assert_eq!(dry.answers.luks_uuid.as_deref(), Some("dry-run-uuid-for-_dev_nvme0n1p3"));
}

/// Passwords and the passphrase go in on stdin and nowhere else.
#[test]
fn secrets_are_in_no_argument_and_no_file() {
    let mut i = install(false, answers(true));
    let mut piped = Vec::new();
    loop {
        match i.next() {
            Job::Run(x) => {
                for word in &x.argv {
                    for secret in ["user-pass", "root-pass", "pass-phrase"] {
                        assert!(!word.contains(secret), "{word}");
                    }
                }
                piped.extend(x.stdin.clone());
                i.report(Outcome::Done(Ok(())));
            }
            Job::Ask { .. } => i.report(Outcome::Answered(Ok("id".into()))),
            Job::Write(w) => {
                for secret in ["user-pass", "root-pass", "pass-phrase"] {
                    assert!(!w.content.contains(secret), "{}", w.content);
                }
                i.report(Outcome::Done(Ok(())));
            }
            Job::List { .. } => i.report(Outcome::Listed(Ok(strings(&["/mnt/dep"])))),
            Job::Finished | Job::Failed => break,
        }
    }
    assert_eq!(
        piped,
        strings(&["pass-phrase", "pass-phrase", "ada:user-pass\n", "root:root-pass\n"])
    );
}

#[test]
fn root_without_a_password_is_locked() {
    let mut a = answers(false);
    a.root_password.clear();
    let mut i = install(false, a);
    let seen = play(&mut i, &[]);
    assert!(seen.contains(&"chroot /mnt/dep passwd --lock root".to_string()));
    assert_eq!(seen.iter().filter(|l| l.contains("chpasswd")).count(), 1);
}

/// The first failure ends the install, where it happened.
#[test]
fn the_first_failure_stands() {
    let mut i = install(false, answers(false));
    let seen = play(&mut i, &["mkfs.ext4 -F -L kiln-boot"]);
    assert_eq!(seen.len(), 8);
    assert_eq!(seen[7], "failed");
    assert_eq!(i.at, 1);
    assert!(i.progress.failed);
    assert_eq!(i.progress.at, 1);
    assert_eq!(i.failure.as_ref().unwrap().what, "mkfs.ext4 /boot");
}

/// Whatever a step has mounted is unmounted, last first, when it fails.
#[test]
fn mounts_are_undone_in_reverse() {
    let mut i = install(false, answers(false));
    let seen = play(&mut i, &["mount --bind /mnt/ostree/deploy/kiln/var"]);
    assert_eq!(
        seen[seen.len() - 4..],
        [
            "mount --bind /mnt/ostree/deploy/kiln/var /mnt/dep/var",
            "umount --recursive --lazy /mnt/dep/boot",
            "umount --recursive --lazy /mnt/dep/sysroot",
            "failed",
        ]
    );
    assert_eq!(i.at, 8);
    assert_eq!(i.failure.as_ref().unwrap().what, "bind mount");
    let mut i = install(false, answers(false));
    let seen = play(&mut i, &["chroot /mnt/dep useradd"]);
    assert_eq!(seen[seen.len() - 8..seen.len() - 1], UNBINDS);
    assert_eq!(i.at, 9);
}

#[test]
fn a_uuid_that_is_not_there_fails_the_install() {
    let mut i = install(false, answers(false));
    loop {
        match i.next() {
            Job::Run(_) => i.report(Outcome::Done(Ok(()))),
            Job::Ask { .. } => i.report(Outcome::Answered(Ok(" \n".into()))),
            _ => break,
        }
    }
    let e = i.failure.as_ref().unwrap();
    assert_eq!(e.what, "reading the UUID of /dev/nvme0n1p1");
    assert_eq!(e.tail, strings(&["blkid printed nothing for /dev/nvme0n1p1"]));
    assert_eq!(i.at, 1);
}

#[test]
fn no_deployment_fails_the_deploy() {
    let mut i = install(false, answers(false));
    loop {
        match i.next() {
            Job::Run(_) | Job::Write(_) => i.report(Outcome::Done(Ok(()))),
            Job::Ask { .. } => i.report(Outcome::Answered(Ok("id".into()))),
            Job::List { .. } => i.report(Outcome::Listed(Ok(vec![]))),
            Job::Finished | Job::Failed => break,
        }
    }
    assert_eq!(i.failure.as_ref().unwrap().what, "locating the deployment");
    assert_eq!(i.at, 6);
    assert!(i.progress.failed);
}

#[test]
fn a_module_the_library_lacks_is_not_written() {
    let mut a = answers(false);
    a.modules = vec!["@kiln/gone/away".into()];
    let mut i = install(false, a);
    let seen = play(&mut i, &[]);
    assert_eq!(seen[seen.len() - 2..], ["kiln sysroot init /mnt", "failed"]);
    let e = i.failure.as_ref().unwrap();
    assert_eq!(
        e.tail,
        strings(&["no @kiln/gone/away in the module library at /usr/share/kiln/modules"])
    );
    assert_eq!(i.at, 4);
    assert!(i.progress.failed);
}

#[test]
fn another_library_is_named_to_the_build() {
    let root = "/home/ada/kiln/modules";
    let library = Library { root: root.into(), files: wanted_files(root) };
    let mut i = Installer::install(Runner::new(false, true), library, answers(false));
    let seen = play(&mut i, &[]);
    assert!(seen.contains(
        &"kiln --sysroot /mnt --config /mnt/etc/kiln --module-root /home/ada/kiln/modules build"
            .to_string()
    ));
}

#[test]
fn the_files_that_are_written() {
    let mut i = install(false, answers(false));
    let mut files = Vec::new();
    loop {
        match i.next() {
            Job::Run(_) => i.report(Outcome::Done(Ok(()))),
            Job::Ask { argv } => i.report(Outcome::Answered(Ok(argv[argv.len() - 1].clone()))),
            Job::Write(w) => {
                files.push(w.content.clone());
                i.report(Outcome::Done(Ok(())));
            }
            Job::List { .. } => i.report(Outcome::Listed(Ok(strings(&["/mnt/dep"])))),
            Job::Finished | Job::Failed => break,
        }
    }
    assert!(files[0].contains("root=UUID=/dev/nvme0n1p3"));
    assert_eq!(
        files[1],
        "# Written by terracotta-installer. The storage layout is the installer's, not\n\
         # Kiln's — `kiln status` deliberately never reports drift on this file.\n\
         UUID=/dev/nvme0n1p3  /          ext4  rw,relatime                 0 0\n\
         UUID=/dev/nvme0n1p2  /boot      ext4  rw,relatime                 0 2\n\
         UUID=/dev/nvme0n1p1  /boot/efi  vfat  umask=0077,shortname=winnt  0 2\n"
    );
}

#[test]
fn the_details_beside_the_steps() {
    let mut i = install(true, answers(false));
    let mut details = vec![i.progress.detail.clone()];
    loop {
        match i.next() {
            Job::Run(_) | Job::Write(_) => i.report(Outcome::Done(Ok(()))),
            _ => break,
        }
        if *details.last().unwrap() != i.progress.detail {
            details.push(i.progress.detail.clone());
        }
    }
    assert_eq!(
        details,
        strings(&[
            "/dev/nvme0n1",
            "vfat, ext4, ext4",
            "/mnt",
            "kiln sysroot init",
            "etc/kiln/system.toml",
            "this takes a while",
            "generation 1",
            "fstab, kiln",
            "grub-install, grub-mkconfig",
            "ada",
            "unmounting",
            "",
        ])
    );
}

#[test]
fn the_install_remembers_whether_there_is_a_log() {
    for logging in [true, false] {
        let i = Installer::install(Runner::new(false, logging), library(), answers(false));
        assert_eq!(i.run.log_path().is_some(), logging);
    }
}

/// A dry run ends well, whatever is said of what was never started.
#[test]
fn a_dry_run_cannot_fail() {
    for encrypt in [false, true] {
        let mut i = install(true, answers(encrypt));
        let seen = play(&mut i, &[""]);
        assert_eq!(seen.last().unwrap(), "finished");
        assert!(i.failure.is_none());
        assert_eq!(i.at, 11);
        let root = if encrypt { "_dev_mapper_root" } else { "_dev_nvme0n1p3" };
        assert_eq!(i.answers.root_uuid, format!("dry-run-uuid-for-{root}"));
        assert_eq!(i.answers.username, "ada");
    }
}
