use terracotta_installer::run::{read_only, Captured, Ended, Execution, Failed, Runner, KEPT, LOG};

fn strings(list: &[&str]) -> Vec<String> {
    list.iter().map(|s| s.to_string()).collect()
}

#[test]
fn a_failure_in_one_sentence() {
    let e = |code, signal| Failed { what: "mkfs".into(), code, signal, tail: vec![] };
    assert_eq!(e(Some(1), false).to_string(), "mkfs exited 1");
    assert_eq!(e(Some(-2), true).to_string(), "mkfs exited -2");
    assert_eq!(e(Some(i32::MIN), false).to_string(), "mkfs exited -2147483648");
    assert_eq!(e(None, true).to_string(), "mkfs was killed by a signal");
    assert_eq!(e(None, false).to_string(), "mkfs failed");
}

#[test]
fn only_questions_run_in_a_dry_run() {
    for program in ["lsblk", "blkid", "findmnt", "localectl"] {
        assert!(read_only(&strings(&[program, "-x"])));
    }
    for program in ["sgdisk", "wipefs", "cryptsetup", "mount", "lsblk2", ""] {
        assert!(!read_only(&strings(&[program])));
    }
    assert!(!read_only(&[]));
    let dry = Runner::new(true, true);
    assert!(!dry.run("zap", &strings(&["sgdisk", "--zap-all", "/dev/sda"])).executes);
    assert!(dry.run("ask", &strings(&["blkid"])).executes);
    let real = Runner::new(false, true);
    assert!(real.run("zap", &strings(&["sgdisk", "--zap-all", "/dev/sda"])).executes);
}

#[test]
fn what_is_said_before_a_command() {
    let real = Runner::new(false, true);
    let opening = real.run("zap", &strings(&["sgdisk", "--zap-all"])).opening();
    assert_eq!(opening.log, strings(&["$ sgdisk --zap-all"]));
    assert_eq!(opening.say, strings(&["$ sgdisk --zap-all"]));
    let dry = Runner::new(true, true);
    let opening = dry.run("zap", &strings(&["sgdisk", "--zap-all"])).opening();
    assert_eq!(opening.log, strings(&["$ sgdisk --zap-all"]));
    assert_eq!(opening.say, strings(&["$ sgdisk --zap-all", "  (dry run — not executed)"]));
}

/// What is piped is never logged, only how many bytes it was.
#[test]
fn stdin_is_not_shown() {
    let real = Runner::new(false, true);
    let x = real.run_stdin("chpasswd", &strings(&["chpasswd"]), "ada:sécret\n");
    assert_eq!(x.stdin.as_deref(), Some("ada:sécret\n"));
    let opening = x.opening();
    assert_eq!(opening.say, strings(&["$ chpasswd <<< (12 bytes, not logged)"]));
    let other = real.run_stdin("chpasswd", &strings(&["chpasswd"]), "bob:secrets\n");
    assert_eq!(other.opening().log, opening.log);
}

#[test]
fn a_working_directory() {
    let real = Runner::new(false, true);
    let x = real.run_in("ls", &strings(&["ls"]), Some("/tmp".into()));
    assert_eq!(x.cwd.as_deref(), Some("/tmp"));
    assert!(x.stdin.is_none());
}

fn running() -> Execution {
    Runner::new(false, true).run("kiln build", &strings(&["kiln", "build"]))
}

#[test]
fn the_last_lines_are_kept() {
    let mut x = running();
    for i in 0..KEPT + 5 {
        let told = x.line(i.to_string());
        assert_eq!(told.log, vec![i.to_string()]);
        assert_eq!(told.say, vec![i.to_string()]);
    }
    let (log, done) = x.ended(Ended::Exited { code: Some(1), status: "exit status: 1".into() });
    assert_eq!(log, strings(&["!! kiln build exited exit status: 1"]));
    let e = done.unwrap_err();
    assert_eq!(e.what, "kiln build");
    assert_eq!(e.code, Some(1));
    assert!(!e.signal);
    assert_eq!(e.tail, (5..KEPT + 5).map(|i| i.to_string()).collect::<Vec<_>>());
}

#[test]
fn the_ends_of_a_process() {
    let (log, done) = running().ended(Ended::Exited { code: Some(0), status: "ok".into() });
    assert!(log.is_empty() && done.is_ok());
    let (_, done) = running().ended(Ended::Exited { code: None, status: "signal: 9".into() });
    let e = done.unwrap_err();
    assert!(e.signal && e.code.is_none());
    let (log, done) = running().ended(Ended::Lost { error: "gone".into() });
    assert!(log.is_empty());
    let e = done.unwrap_err();
    assert!(!e.signal && e.code.is_none());
    assert_eq!(e.tail, strings(&["gone"]));
    let (report, e) = running().not_started("No such file");
    assert_eq!(report.log, strings(&["cannot run kiln: No such file"]));
    assert_eq!(report.say, report.log);
    assert_eq!(e.tail, report.log);
    assert_eq!(e.what, "kiln build");
}

#[test]
fn the_answer_to_a_question() {
    let real = Runner::new(false, true);
    let argv = strings(&["blkid", "/dev/sda1"]);
    let got = |code| Captured::Exited { code, stdout: "uuid\n".into(), stderr: "a\nb\n".into() };
    assert_eq!(real.capture(&argv, got(Some(0))).unwrap(), "uuid\n");
    let e = real.capture(&argv, got(Some(2))).unwrap_err();
    assert_eq!(e.what, "blkid /dev/sda1");
    assert_eq!(e.code, Some(2));
    assert_eq!(e.tail, strings(&["a", "b"]));
    let e = real.capture(&argv, got(None)).unwrap_err();
    assert_eq!((e.code, e.signal), (None, true));
    assert_eq!(e.to_string(), "blkid /dev/sda1 was killed by a signal");
    let e = real.capture(&argv, Captured::NotRun { error: "no".into() }).unwrap_err();
    assert_eq!(e.tail, strings(&["no"]));
    assert_eq!((e.code, e.signal), (None, false));
    assert_eq!(e.to_string(), "blkid /dev/sda1 failed");
}

#[test]
fn files_are_logged_before_they_are_written() {
    let w = Runner::new(false, true).write("/mnt/etc/fstab", "line\n");
    assert!(w.executes);
    let opening = w.opening();
    assert_eq!(opening.log, strings(&["--- /mnt/etc/fstab ---\nline\n--- end ---"]));
    assert_eq!(opening.say, strings(&["write /mnt/etc/fstab"]));
    let e = w.not_written("denied");
    assert_eq!(e.to_string(), "writing /mnt/etc/fstab failed");
    assert_eq!(e.tail, strings(&["denied"]));
    let w = Runner::new(true, true).write("/mnt/etc/fstab", "line\n");
    assert!(!w.executes);
    assert_eq!(
        w.opening().say,
        strings(&["write /mnt/etc/fstab", "  (dry run — not written)"])
    );
}

#[test]
fn where_the_log_is() {
    assert_eq!(Runner::new(false, true).log_path().as_deref(), Some(LOG));
    assert_eq!(Runner::new(false, false).log_path(), None);
    assert_eq!(Runner::banner(7), "\n=== terracotta-installer 7 ===");
}

/// What is not executed comes to success.
#[test]
fn what_is_not_executed_succeeds() {
    let dry = Runner::new(true, true);
    let x = dry.run("zap", &strings(&["sgdisk", "--zap-all"]));
    assert!(matches!(x.skipped(), Some(Ok(()))));
    let x = dry.run_stdin("chpasswd", &strings(&["chroot", "/mnt", "chpasswd"]), "ada:secret\n");
    assert!(matches!(x.skipped(), Some(Ok(()))));
    assert_eq!(
        x.opening().say,
        strings(&[
            "$ chroot /mnt chpasswd <<< (11 bytes, not logged)",
            "  (dry run — not executed)"
        ])
    );
    assert_eq!(
        x.opening().log,
        strings(&["$ chroot /mnt chpasswd <<< (11 bytes, not logged)"])
    );
    assert!(matches!(dry.write("/mnt/x", "").skipped(), Some(Ok(()))));
    assert!(dry.run("ask", &strings(&["lsblk"])).skipped().is_none());
    let real = Runner::new(false, true);
    assert!(real.run("zap", &strings(&["sgdisk"])).skipped().is_none());
    assert!(real.write("/mnt/x", "").skipped().is_none());
}

/// Questions are in the log too, with every line that was printed.
#[test]
fn questions_are_logged() {
    let real = Runner::new(false, true);
    let argv = strings(&["blkid", "/dev/sda1"]);
    let before = real.ask(&argv);
    assert_eq!(before.log, strings(&["$ blkid /dev/sda1"]));
    assert!(before.say.is_empty());
    let got = |code| Captured::Exited { code, stdout: "a\nb\n".into(), stderr: "c\n".into() };
    let after = real.heard(&argv, &got(Some(0)));
    assert_eq!(after.log, strings(&["a", "b", "c"]));
    assert!(after.say.is_empty());
    let after = real.heard(&argv, &got(Some(2)));
    assert_eq!(after.log, strings(&["a", "b", "c", "!! blkid /dev/sda1 exited 2"]));
    let after = real.heard(&argv, &got(None));
    assert_eq!(after.log[3], "!! blkid /dev/sda1 was killed by a signal");
    let after = real.heard(&argv, &Captured::NotRun { error: "no".into() });
    assert_eq!(after.log, strings(&["cannot run blkid: no"]));
}
