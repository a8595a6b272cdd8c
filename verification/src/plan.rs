//! What each step of the install consists of.
//!
//! Kiln's side of the install is reached only through the `kiln` binary and
//! only through the flags it documents. The order of the steps matters, and
//! parts of it are easy to get backwards:
//!
//! - `kiln build --sysroot` creates `ostree/repo` on its own, so building into
//!   an uninitialized target succeeds and then fails at deploy, several hundred
//!   megabytes later. `sysroot init` comes first, always.
//! - A `--sysroot` deploy writes boot entries and no `grub.cfg`, so the
//!   bootloader step is the installer's, and it runs after the deploy, because
//!   `grub-mkconfig` has to read the deployment's own `/etc/grub.d`. Its output
//!   does not stay at `/boot/grub/grub.cfg`: libostree maintains
//!   `/boot/loader.N/grub.cfg` and swaps the `loader` symlink.
//! - `/mnt/etc` is not the installed machine's `/etc`. The configuration is
//!   written there for the build and moved into the deployment afterwards.

use vstd::prelude::*;

use crate::config;
use crate::config::system_toml;
use crate::interview::{Answers, AnswersView};
use crate::path;
use crate::path::{below, same_place};
use crate::rules;
use crate::rules::CheckView;
use crate::text;
use crate::text::{emit, number, replace, Text};

verus! {

/// Where the target is mounted. This is the path Kiln's own documentation
/// names, and an installer that used a different one would be documenting
/// itself out of the manual.
pub const MNT: &'static str = "/mnt";

/// libostree's name for Kiln's stateroot.
pub const STATEROOT: &'static str = "kiln";

/// The name under which an encrypted root is opened. The kernel arguments name
/// it too, so it is the same on every boot.
pub const LUKS_NAME: &'static str = "root";

/// The device an encrypted root is opened as.
pub const LUKS_ROOT: &'static str = "/dev/mapper/root";

/// What a failed build is called.
pub const KILN_BUILD: &'static str = "kiln build";

/// Where the module library is unless something else is said.
pub const DEFAULT_MODULE_DIR: &'static str = "/usr/share/kiln/modules";

/// The size of the ESP. One gibibyte, and the same for `/boot`: libostree keeps
/// a kernel and an initramfs per distinct boot checksum there, and 512 MiB fits
/// that until it suddenly does not.
pub const ESP_MIB: u64 = 1024;

/// The size of `/boot`.
pub const BOOT_MIB: u64 = 1024;

/// Where the configuration is written for `kiln build` to read: on the physical
/// root, because that is where it exists at the moment the build runs and the
/// deployment does not exist yet. It does not stay here.
pub open spec fn staged() -> Text {
    path::under(MNT@, "etc/kiln"@)
}

/// Where the configuration is written for `kiln build` to read.
pub fn staged_config() -> (out: String)
    ensures
        out@ == staged(),
{
    below(MNT, "etc/kiln")
}

// ---------------------------------------------------------------------------
// Tasks
// ---------------------------------------------------------------------------

/// What happens when a command fails.
pub enum Policy {
    /// The install fails.
    Abort,
    /// Nothing.
    Ignore,
    /// It is said, and the install goes on.
    Explain { line: String },
}

/// What a `Policy` holds, as contracts see it.
#[verifier::ext_equal]
pub enum PolicyView {
    Abort,
    Ignore,
    Explain { line: Text },
}

impl View for Policy {
    type V = PolicyView;

    open spec fn view(&self) -> PolicyView {
        match self {
            Policy::Abort => PolicyView::Abort,
            Policy::Ignore => PolicyView::Ignore,
            Policy::Explain { line } => PolicyView::Explain { line: line@ },
        }
    }
}

/// What a UUID belongs to.
#[derive(Clone, Copy, PartialEq, Eq, Structural)]
pub enum Slot {
    Esp,
    Boot,
    Root,
    /// The LUKS container, as opposed to the filesystem in it.
    Luks,
}

/// A piece of a step.
pub enum Task {
    /// Run a command.
    Run {
        what: String,
        argv: Vec<String>,
        stdin: Option<String>,
        policy: Policy,
        /// The mount point to unmount at the end of the step, when it succeeds.
        binds: Option<String>,
    },
    /// Find out a UUID.
    Identify { slot: Slot, device: String },
    /// Write a file.
    Write { at: String, content: String },
    /// Find the deployment that was written.
    Locate,
}

/// What a `Task` holds, as contracts see it.
#[verifier::ext_equal]
pub enum TaskView {
    Run {
        what: Text,
        argv: Seq<Text>,
        stdin: Option<Text>,
        policy: PolicyView,
        binds: Option<Text>,
    },
    Identify { slot: Slot, device: Text },
    Write { at: Text, content: Text },
    Locate,
}

impl View for Task {
    type V = TaskView;

    open spec fn view(&self) -> TaskView {
        match self {
            Task::Run { what, argv, stdin, policy, binds } => TaskView::Run {
                what: what@,
                argv: argv.deep_view(),
                stdin: stdin.deep_view(),
                policy: policy@,
                binds: binds.deep_view(),
            },
            Task::Identify { slot, device } => TaskView::Identify { slot: *slot, device: device@ },
            Task::Write { at, content } => TaskView::Write { at: at@, content: content@ },
            Task::Locate => TaskView::Locate,
        }
    }
}

impl DeepView for Task {
    type V = TaskView;

    open spec fn deep_view(&self) -> TaskView {
        self@
    }
}

/// A command that has to succeed.
pub open spec fn must(what: Text, argv: Seq<Text>) -> TaskView {
    TaskView::Run { what, argv, stdin: None, policy: PolicyView::Abort, binds: None }
}

/// A command that may fail.
pub open spec fn may(what: Text, argv: Seq<Text>) -> TaskView {
    TaskView::Run { what, argv, stdin: None, policy: PolicyView::Ignore, binds: None }
}

/// A command that has to succeed and that something is piped to.
pub open spec fn piped(what: Text, argv: Seq<Text>, stdin: Text) -> TaskView {
    TaskView::Run { what, argv, stdin: Some(stdin), policy: PolicyView::Abort, binds: None }
}

/// A command and its arguments, on the way to become a task.
pub struct Line {
    pub argv: Vec<String>,
}

impl Line {
    /// A command without arguments.
    fn new(program: &str) -> (out: Line)
        ensures
            out.argv.deep_view() == seq![program@],
    {
        let mut argv: Vec<String> = Vec::new();
        emit(&mut argv, program.to_owned());
        assert(argv.deep_view() =~= seq![program@]);
        Line { argv }
    }

    /// The command with one more argument.
    fn arg(self, word: &str) -> (out: Line)
        ensures
            out.argv.deep_view() == self.argv.deep_view().push(word@),
    {
        let mut argv = self.argv;
        emit(&mut argv, word.to_owned());
        Line { argv }
    }

    /// As a command that has to succeed.
    fn must(self, what: &str) -> (out: Task)
        ensures
            out@ == must(what@, self.argv.deep_view()),
    {
        Task::Run {
            what: what.to_owned(),
            argv: self.argv,
            stdin: None,
            policy: Policy::Abort,
            binds: None,
        }
    }

    /// As a command that may fail.
    fn may(self, what: &str) -> (out: Task)
        ensures
            out@ == may(what@, self.argv.deep_view()),
    {
        Task::Run {
            what: what.to_owned(),
            argv: self.argv,
            stdin: None,
            policy: Policy::Ignore,
            binds: None,
        }
    }

    /// As a command that has to succeed and that something is piped to.
    fn piped(self, what: &str, stdin: &str) -> (out: Task)
        ensures
            out@ == piped(what@, self.argv.deep_view(), stdin@),
    {
        Task::Run {
            what: what.to_owned(),
            argv: self.argv,
            stdin: Some(stdin.to_owned()),
            policy: Policy::Abort,
            binds: None,
        }
    }
}

/// Appends one task to a list.
fn schedule(list: &mut Vec<Task>, task: Task)
    ensures
        final(list).deep_view() == old(list).deep_view().push(task@),
{
    list.push(task);
    assert(list.deep_view() =~= old(list).deep_view().push(task@));
}

/// A list of tasks without any.
fn no_tasks() -> (out: Vec<Task>)
    ensures
        out.deep_view() == Seq::<TaskView>::empty(),
{
    let out: Vec<Task> = Vec::new();
    assert(out.deep_view() =~= Seq::<TaskView>::empty());
    out
}

// ---------------------------------------------------------------------------
// The disk
// ---------------------------------------------------------------------------

/// The partitions of the target and what identifies their filesystems.
pub struct Layout {
    pub esp: String,
    pub boot: String,
    pub root: String,
    pub esp_uuid: String,
    pub boot_uuid: String,
    pub root_uuid: String,
}

/// What a `Layout` holds, as contracts see it.
#[verifier::ext_equal]
pub struct LayoutView {
    pub esp: Text,
    pub boot: Text,
    pub root: Text,
    pub esp_uuid: Text,
    pub boot_uuid: Text,
    pub root_uuid: Text,
}

impl View for Layout {
    type V = LayoutView;

    open spec fn view(&self) -> LayoutView {
        LayoutView {
            esp: self.esp@,
            boot: self.boot@,
            root: self.root@,
            esp_uuid: self.esp_uuid@,
            boot_uuid: self.boot_uuid@,
            root_uuid: self.root_uuid@,
        }
    }
}

/// The UUID that stands for a device's when there is none to ask for.
pub open spec fn made_up_uuid(device: Text) -> Text {
    "dry-run-uuid-for-"@ + text::replaced(device, '/', '_')
}

/// The UUID that stands for a device's when there is none to ask for.
pub fn make_up_uuid(device: &str) -> (out: String)
    ensures
        out@ == made_up_uuid(device@),
{
    "dry-run-uuid-for-".to_owned().concat(replace(device, '/', '_').as_str())
}

/// The device of the root filesystem: the third partition, or what that is
/// opened as when it is encrypted.
pub open spec fn root_device(a: AnswersView) -> Text {
    if a.encrypt {
        LUKS_ROOT@
    } else {
        a.disk.partition(3)
    }
}

/// The partitions of the target before their filesystems are made. Where none
/// will be made, UUIDs that say so stand for theirs.
pub open spec fn blank_layout(a: AnswersView, dry_run: bool) -> LayoutView {
    let esp = a.disk.partition(1);
    let boot = a.disk.partition(2);
    let root = root_device(a);
    if dry_run {
        LayoutView {
            esp,
            boot,
            root,
            esp_uuid: made_up_uuid(esp),
            boot_uuid: made_up_uuid(boot),
            root_uuid: made_up_uuid(root),
        }
    } else {
        LayoutView {
            esp,
            boot,
            root,
            esp_uuid: Seq::empty(),
            boot_uuid: Seq::empty(),
            root_uuid: Seq::empty(),
        }
    }
}

/// The partitions of the target before their filesystems are made.
pub fn lay_out(a: &Answers, dry_run: bool) -> (out: Layout)
    ensures
        out@ == blank_layout(a@, dry_run),
{
    let esp = a.disk.partition(1);
    let boot = a.disk.partition(2);
    let root = if a.encrypt {
        LUKS_ROOT.to_owned()
    } else {
        a.disk.partition(3)
    };
    let out = if dry_run {
        let esp_uuid = make_up_uuid(esp.as_str());
        let boot_uuid = make_up_uuid(boot.as_str());
        let root_uuid = make_up_uuid(root.as_str());
        Layout { esp, boot, root, esp_uuid, boot_uuid, root_uuid }
    } else {
        Layout {
            esp,
            boot,
            root,
            esp_uuid: String::new(),
            boot_uuid: String::new(),
            root_uuid: String::new(),
        }
    };
    assert(out@ =~= blank_layout(a@, dry_run));
    out
}

/// The container on the third partition, when root is encrypted: made, asked
/// for its UUID where there is one, and opened. The passphrase goes in on stdin
/// each time.
pub open spec fn container_tasks(a: AnswersView, dry_run: bool) -> Seq<TaskView> {
    let part = a.disk.partition(3);
    let made = piped(
        "cryptsetup luksFormat"@,
        seq![
            "cryptsetup"@,
            "luksFormat"@,
            "--type"@,
            "luks2"@,
            "--batch-mode"@,
            "--key-file=-"@,
            part,
        ],
        a.passphrase,
    );
    let opened = piped(
        "cryptsetup open"@,
        seq!["cryptsetup"@, "open"@, "--key-file=-"@, part, LUKS_NAME@],
        a.passphrase,
    );
    if !a.encrypt {
        Seq::empty()
    } else if dry_run {
        seq![made, opened]
    } else {
        seq![made, TaskView::Identify { slot: Slot::Luks, device: part }, opened]
    }
}

/// GPT, three partitions, no swap: a swap partition is the one choice that
/// cannot be undone later. Type `8300` for the root partition rather than
/// `8304`, which would invite systemd to mount what the initramfs mounts.
///
/// Between `sgdisk` returning and the kernel publishing the new device nodes
/// there is a window in which `mkfs` finds nothing; `partprobe` asks for the
/// reread and `udevadm settle` waits for udev to have finished acting on it.
pub open spec fn partition_tasks(a: AnswersView, dry_run: bool) -> Seq<TaskView> {
    let disk = a.disk.path;
    seq![
        must("wiping signatures"@, seq!["wipefs"@, "--all"@, disk]),
        must("zapping the partition table"@, seq!["sgdisk"@, "--zap-all"@, disk]),
        must(
            "creating partitions"@,
            seq![
                "sgdisk"@,
                "--new=1:0:+"@ + text::decimal(ESP_MIB as nat) + "M"@,
                "--typecode=1:ef00"@,
                "--change-name=1:EFI system partition"@,
                "--new=2:0:+"@ + text::decimal(BOOT_MIB as nat) + "M"@,
                "--typecode=2:8300"@,
                "--change-name=2:kiln-boot"@,
                "--new=3:0:0"@,
                "--typecode=3:8300"@,
                "--change-name=3:kiln-root"@,
                disk,
            ],
        ),
        must("rereading the partition table"@, seq!["partprobe"@, disk]),
        must("waiting for udev"@, seq!["udevadm"@, "settle"@]),
    ] + container_tasks(a, dry_run)
}

/// The tasks of the partition step.
pub fn partition(a: &Answers, dry_run: bool) -> (out: Vec<Task>)
    ensures
        out.deep_view() == partition_tasks(a@, dry_run),
{
    let disk = a.disk.path.as_str();
    let part = a.disk.partition(3);
    let esp_size = "--new=1:0:+".to_owned().concat(number(ESP_MIB).as_str()).concat("M");
    let boot_size = "--new=2:0:+".to_owned().concat(number(BOOT_MIB).as_str()).concat("M");
    let mut out = no_tasks();
    schedule(&mut out, Line::new("wipefs").arg("--all").arg(disk).must("wiping signatures"));
    schedule(
        &mut out,
        Line::new("sgdisk").arg("--zap-all").arg(disk).must("zapping the partition table"),
    );
    schedule(
        &mut out,
        Line::new("sgdisk").arg(esp_size.as_str()).arg("--typecode=1:ef00").arg(
            "--change-name=1:EFI system partition",
        ).arg(boot_size.as_str()).arg("--typecode=2:8300").arg("--change-name=2:kiln-boot").arg(
            "--new=3:0:0",
        ).arg("--typecode=3:8300").arg("--change-name=3:kiln-root").arg(disk).must(
            "creating partitions",
        ),
    );
    schedule(&mut out, Line::new("partprobe").arg(disk).must("rereading the partition table"));
    schedule(&mut out, Line::new("udevadm").arg("settle").must("waiting for udev"));
    if a.encrypt {
        schedule(
            &mut out,
            Line::new("cryptsetup").arg("luksFormat").arg("--type").arg("luks2").arg(
                "--batch-mode",
            ).arg("--key-file=-").arg(part.as_str()).piped(
                "cryptsetup luksFormat",
                a.passphrase.as_str(),
            ),
        );
        if !dry_run {
            schedule(&mut out, Task::Identify { slot: Slot::Luks, device: part.clone() });
        }
        schedule(
            &mut out,
            Line::new("cryptsetup").arg("open").arg("--key-file=-").arg(part.as_str()).arg(
                LUKS_NAME,
            ).piped("cryptsetup open", a.passphrase.as_str()),
        );
    }
    assert(out.deep_view() =~~= partition_tasks(a@, dry_run));
    out
}

/// vfat for the ESP because UEFI reads nothing else; ext4 for `/boot` because
/// libostree keeps `/boot/loader` as a symlink pair and vfat has no symlinks.
pub open spec fn format_tasks(l: LayoutView, dry_run: bool) -> Seq<TaskView> {
    seq![
        must("mkfs.fat"@, seq!["mkfs.fat"@, "-F"@, "32"@, "-n"@, "KILN-ESP"@, l.esp]),
        must("mkfs.ext4 /boot"@, seq!["mkfs.ext4"@, "-F"@, "-L"@, "kiln-boot"@, l.boot]),
        must("mkfs.ext4 /"@, seq!["mkfs.ext4"@, "-F"@, "-L"@, "kiln-root"@, l.root]),
        must("waiting for udev"@, seq!["udevadm"@, "settle"@]),
    ] + if dry_run {
        Seq::empty()
    } else {
        seq![
            TaskView::Identify { slot: Slot::Esp, device: l.esp },
            TaskView::Identify { slot: Slot::Boot, device: l.boot },
            TaskView::Identify { slot: Slot::Root, device: l.root },
        ]
    }
}

/// The tasks of the format step.
pub fn format(l: &Layout, dry_run: bool) -> (out: Vec<Task>)
    ensures
        out.deep_view() == format_tasks(l@, dry_run),
{
    let mut out = no_tasks();
    schedule(
        &mut out,
        Line::new("mkfs.fat").arg("-F").arg("32").arg("-n").arg("KILN-ESP").arg(
            l.esp.as_str(),
        ).must("mkfs.fat"),
    );
    schedule(
        &mut out,
        Line::new("mkfs.ext4").arg("-F").arg("-L").arg("kiln-boot").arg(l.boot.as_str()).must(
            "mkfs.ext4 /boot",
        ),
    );
    schedule(
        &mut out,
        Line::new("mkfs.ext4").arg("-F").arg("-L").arg("kiln-root").arg(l.root.as_str()).must(
            "mkfs.ext4 /",
        ),
    );
    schedule(&mut out, Line::new("udevadm").arg("settle").must("waiting for udev"));
    if !dry_run {
        schedule(&mut out, Task::Identify { slot: Slot::Esp, device: l.esp.clone() });
        schedule(&mut out, Task::Identify { slot: Slot::Boot, device: l.boot.clone() });
        schedule(&mut out, Task::Identify { slot: Slot::Root, device: l.root.clone() });
    }
    assert(out.deep_view() =~~= format_tasks(l@, dry_run));
    out
}

/// The target at its place, then `/boot`, then `/boot/efi`. A desktop may have
/// mounted the new partitions by itself the moment they got a filesystem, so
/// they are unmounted first; in the ordinary case there is nothing to unmount.
pub open spec fn mount_tasks(l: LayoutView) -> Seq<TaskView> {
    let boot = MNT@ + "/boot"@;
    let efi = MNT@ + "/boot/efi"@;
    seq![
        may("umount"@, seq!["umount"@, l.esp]),
        may("umount"@, seq!["umount"@, l.boot]),
        may("umount"@, seq!["umount"@, l.root]),
        must("mkdir"@, seq!["mkdir"@, "-p"@, MNT@]),
        must("mount /"@, seq!["mount"@, l.root, MNT@]),
        must("mkdir /boot"@, seq!["mkdir"@, "-p"@, boot]),
        must("mount /boot"@, seq!["mount"@, l.boot, boot]),
        must("mkdir /boot/efi"@, seq!["mkdir"@, "-p"@, efi]),
        must("mount /boot/efi"@, seq!["mount"@, l.esp, efi]),
    ]
}

/// The tasks of the mount step.
pub fn mount(l: &Layout) -> (out: Vec<Task>)
    ensures
        out.deep_view() == mount_tasks(l@),
{
    let boot = MNT.to_owned().concat("/boot");
    let efi = MNT.to_owned().concat("/boot/efi");
    let mut out = no_tasks();
    schedule(&mut out, Line::new("umount").arg(l.esp.as_str()).may("umount"));
    schedule(&mut out, Line::new("umount").arg(l.boot.as_str()).may("umount"));
    schedule(&mut out, Line::new("umount").arg(l.root.as_str()).may("umount"));
    schedule(&mut out, Line::new("mkdir").arg("-p").arg(MNT).must("mkdir"));
    schedule(&mut out, Line::new("mount").arg(l.root.as_str()).arg(MNT).must("mount /"));
    schedule(&mut out, Line::new("mkdir").arg("-p").arg(boot.as_str()).must("mkdir /boot"));
    schedule(&mut out, Line::new("mount").arg(l.boot.as_str()).arg(boot.as_str()).must("mount /boot"));
    schedule(&mut out, Line::new("mkdir").arg("-p").arg(efi.as_str()).must("mkdir /boot/efi"));
    schedule(&mut out, Line::new("mount").arg(l.esp.as_str()).arg(efi.as_str()).must("mount /boot/efi"));
    assert(out.deep_view() =~~= mount_tasks(l@));
    out
}

// ---------------------------------------------------------------------------
// Kiln
// ---------------------------------------------------------------------------

/// Kiln initializing its own storage, in the same sense as `git init`.
pub open spec fn sysroot_tasks() -> Seq<TaskView> {
    seq![must("kiln sysroot init"@, seq!["kiln"@, "sysroot"@, "init"@, MNT@])]
}

/// The tasks of the sysroot step.
pub fn sysroot() -> (out: Vec<Task>)
    ensures
        out.deep_view() == sysroot_tasks(),
{
    let mut out = no_tasks();
    schedule(&mut out, Line::new("kiln").arg("sysroot").arg("init").arg(MNT).must("kiln sysroot init"));
    assert(out.deep_view() =~~= sysroot_tasks());
    out
}

/// The configuration, written for the build to read.
pub open spec fn configure_tasks(a: AnswersView) -> Seq<TaskView> {
    seq![
        TaskView::Write {
            at: path::under(staged(), "system.toml"@),
            content: config::configuration(a),
        },
    ]
}

/// The tasks of the configure step.
pub fn configure(a: &Answers) -> (out: Vec<Task>)
    ensures
        out.deep_view() == configure_tasks(a@),
{
    let mut out = no_tasks();
    schedule(
        &mut out,
        Task::Write {
            at: below(staged_config().as_str(), "system.toml"),
            content: system_toml(a),
        },
    );
    assert(out.deep_view() =~~= configure_tasks(a@));
    out
}

/// The build. The module library is named only when it is not the default, so
/// the command in the log is the command a user would type on the installed
/// machine.
pub open spec fn build_tasks(module_root: Text) -> Seq<TaskView> {
    let start = seq!["kiln"@, "--sysroot"@, MNT@, "--config"@, staged()];
    let argv = if path::same_absolute(module_root, DEFAULT_MODULE_DIR@) {
        start
    } else {
        start.push("--module-root"@).push(module_root)
    };
    seq![must(KILN_BUILD@, argv.push("build"@))]
}

/// The tasks of the build step.
pub fn build(module_root: &str) -> (out: Vec<Task>)
    ensures
        out.deep_view() == build_tasks(module_root@),
{
    let start = Line::new("kiln").arg("--sysroot").arg(MNT).arg("--config").arg(
        staged_config().as_str(),
    );
    let line = if same_place(module_root, DEFAULT_MODULE_DIR) {
        start
    } else {
        start.arg("--module-root").arg(module_root)
    };
    let mut out = no_tasks();
    schedule(&mut out, line.arg("build").must(KILN_BUILD));
    assert(out.deep_view() =~~= build_tasks(module_root@));
    out
}

/// The step that makes it bootable. `kiln build` commits and does not deploy;
/// what the deploy wrote is then looked for, unless nothing was written.
pub open spec fn deploy_tasks(dry_run: bool) -> Seq<TaskView> {
    let deploy = must("kiln deploy 1"@, seq!["kiln"@, "--sysroot"@, MNT@, "deploy"@, "1"@]);
    if dry_run {
        seq![deploy]
    } else {
        seq![deploy, TaskView::Locate]
    }
}

/// The tasks of the deploy step.
pub fn deploy(dry_run: bool) -> (out: Vec<Task>)
    ensures
        out.deep_view() == deploy_tasks(dry_run),
{
    let mut out = no_tasks();
    schedule(
        &mut out,
        Line::new("kiln").arg("--sysroot").arg(MNT).arg("deploy").arg("1").must("kiln deploy 1"),
    );
    if !dry_run {
        schedule(&mut out, Task::Locate);
    }
    assert(out.deep_view() =~~= deploy_tasks(dry_run));
    out
}

// ---------------------------------------------------------------------------
// The deployment
// ---------------------------------------------------------------------------

/// `/etc/fstab`. The root is listed even though the initramfs has already
/// mounted it, and with `passno` 0: a check of a root that is a bind of a
/// subdirectory is not a meaningful thing to ask for.
pub open spec fn fstab(l: LayoutView) -> Text {
    "# Written by terracotta-installer. The storage layout is the installer's, not\n"@
        + "# Kiln's — `kiln status` deliberately never reports drift on this file.\n"@ + "UUID="@
        + l.root_uuid + "  /          ext4  rw,relatime                 0 0\n"@ + "UUID="@
        + l.boot_uuid + "  /boot      ext4  rw,relatime                 0 2\n"@ + "UUID="@
        + l.esp_uuid + "  /boot/efi  vfat  umask=0077,shortname=winnt  0 2\n"@
}

/// `/etc/fstab`.
pub fn fstab_text(l: &Layout) -> (out: String)
    ensures
        out@ == fstab(l@),
{
    "# Written by terracotta-installer. The storage layout is the installer's, not\n".to_owned().concat(
    "# Kiln's — `kiln status` deliberately never reports drift on this file.\n").concat(
        "UUID=",
    ).concat(l.root_uuid.as_str()).concat(
        "  /          ext4  rw,relatime                 0 0\n",
    ).concat("UUID=").concat(l.boot_uuid.as_str()).concat(
        "  /boot      ext4  rw,relatime                 0 2\n",
    ).concat("UUID=").concat(l.esp_uuid.as_str()).concat(
        "  /boot/efi  vfat  umask=0077,shortname=winnt  0 2\n",
    )
}

/// What the installer puts in the deployment's `/etc`: `fstab`, and the
/// configuration, which is moved there. The staged directory's contents are
/// copied, not the directory, so that nothing is nested if the target exists;
/// and the empty `/etc` of the physical root goes away if nothing else is in
/// it.
pub open spec fn etc_tasks(dep: Text, l: LayoutView) -> Seq<TaskView> {
    let to = path::under(dep, "etc/kiln"@);
    seq![
        TaskView::Write { at: path::under(dep, "etc/fstab"@), content: fstab(l) },
        must("mkdir"@, seq!["mkdir"@, "-p"@, to]),
        must("cp /etc/kiln"@, seq!["cp"@, "-a"@, path::under(staged(), "."@), to]),
        must("rm the staged copy"@, seq!["rm"@, "-r"@, staged()]),
        may("rmdir"@, seq!["rmdir"@, "--ignore-fail-on-non-empty"@, MNT@ + "/etc"@]),
    ]
}

/// The tasks of the etc step.
pub fn etc(dep: &str, l: &Layout) -> (out: Vec<Task>)
    ensures
        out.deep_view() == etc_tasks(dep@, l@),
{
    let staged = staged_config();
    let from = below(staged.as_str(), ".");
    let to = below(dep, "etc/kiln");
    let old_etc = MNT.to_owned().concat("/etc");
    let mut out = no_tasks();
    schedule(&mut out, Task::Write { at: below(dep, "etc/fstab"), content: fstab_text(l) });
    schedule(&mut out, Line::new("mkdir").arg("-p").arg(to.as_str()).must("mkdir"));
    schedule(
        &mut out,
        Line::new("cp").arg("-a").arg(from.as_str()).arg(to.as_str()).must("cp /etc/kiln"),
    );
    schedule(&mut out, Line::new("rm").arg("-r").arg(staged.as_str()).must("rm the staged copy"));
    schedule(
        &mut out,
        Line::new("rmdir").arg("--ignore-fail-on-non-empty").arg(old_etc.as_str()).may("rmdir"),
    );
    assert(out.deep_view() =~~= etc_tasks(dep@, l@));
    out
}

/// A bind mount into the deployment: its mount point is made, then mounted.
pub open spec fn bind_tasks(from: Text, to: Text, recursive: bool) -> Seq<TaskView> {
    let flag = if recursive {
        "--rbind"@
    } else {
        "--bind"@
    };
    seq![
        must("mkdir"@, seq!["mkdir"@, "-p"@, to]),
        TaskView::Run {
            what: "bind mount"@,
            argv: seq!["mount"@, flag, from, to],
            stdin: None,
            policy: PolicyView::Abort,
            binds: Some(to),
        },
    ]
}

/// Where the stateroot keeps its `/var`.
pub open spec fn stateroot_var() -> Text {
    path::under(path::under(path::under(MNT@, "ostree/deploy"@), STATEROOT@), "var"@)
}

/// What a chroot into the deployment needs. `/sysroot` is the one that is easy
/// to miss: the deployment's `/ostree` is a symlink into it, and without it
/// `grub-mkconfig` sees no deployments. `/boot` is bound recursively, because
/// the ESP is a mount underneath it.
pub open spec fn enter_tasks(dep: Text) -> Seq<TaskView> {
    bind_tasks(MNT@, path::under(dep, "sysroot"@), false) + bind_tasks(
        path::under(MNT@, "boot"@),
        path::under(dep, "boot"@),
        true,
    ) + bind_tasks(stateroot_var(), path::under(dep, "var"@), false) + bind_tasks(
        "/dev"@,
        path::under(dep, "dev"@),
        true,
    ) + bind_tasks("/proc"@, path::under(dep, "proc"@), true) + bind_tasks(
        "/sys"@,
        path::under(dep, "sys"@),
        true,
    ) + bind_tasks("/run"@, path::under(dep, "run"@), true)
}

/// Appends a bind mount.
fn bind(out: &mut Vec<Task>, from: &str, to: String, recursive: bool)
    ensures
        final(out).deep_view() == old(out).deep_view() + bind_tasks(from@, to@, recursive),
{
    let flag = if recursive {
        "--rbind"
    } else {
        "--bind"
    };
    let ghost before = out.deep_view();
    schedule(out, Line::new("mkdir").arg("-p").arg(to.as_str()).must("mkdir"));
    let line = Line::new("mount").arg(flag).arg(from).arg(to.as_str());
    schedule(
        out,
        Task::Run {
            what: "bind mount".to_owned(),
            argv: line.argv,
            stdin: None,
            policy: Policy::Abort,
            binds: Some(to),
        },
    );
    assert(out.deep_view() =~~= before + bind_tasks(from@, to@, recursive));
}

/// What a chroot into the deployment needs.
fn enter(dep: &str) -> (out: Vec<Task>)
    ensures
        out.deep_view() == enter_tasks(dep@),
{
    let var = below(below(below(MNT, "ostree/deploy").as_str(), STATEROOT).as_str(), "var");
    let boot = below(MNT, "boot");
    let mut out = no_tasks();
    bind(&mut out, MNT, below(dep, "sysroot"), false);
    bind(&mut out, boot.as_str(), below(dep, "boot"), true);
    bind(&mut out, var.as_str(), below(dep, "var"), false);
    bind(&mut out, "/dev", below(dep, "dev"), true);
    bind(&mut out, "/proc", below(dep, "proc"), true);
    bind(&mut out, "/sys", below(dep, "sys"), true);
    bind(&mut out, "/run", below(dep, "run"), true);
    assert(out.deep_view() =~~= enter_tasks(dep@));
    out
}

/// What is said when the firmware has no entry for the system.
pub const NO_BOOT_ENTRY: &'static str =
    "  no UEFI boot entry was written (grub-install needs efibootmgr and a mounted efivarfs); the machine boots the removable path at \\EFI\\BOOT\\BOOTX64.EFI";

/// GRUB onto the disk, and the first `grub.cfg`, all of it chrooted into the
/// deployment. `grub-install` runs twice, fallback first: a machine with only
/// the fallback path boots, so that one is required, and the firmware entry is
/// best-effort and says so. The generated configuration is then moved into the
/// loader directory, and a link takes its place.
pub open spec fn grub_tasks(dep: Text) -> Seq<TaskView> {
    seq![
        must(
            "grub-install --removable"@,
            seq![
                "chroot"@,
                dep,
                "grub-install"@,
                "--target=x86_64-efi"@,
                "--efi-directory=/boot/efi"@,
                "--boot-directory=/boot"@,
                "--removable"@,
            ],
        ),
        TaskView::Run {
            what: "grub-install"@,
            argv: seq![
                "chroot"@,
                dep,
                "grub-install"@,
                "--target=x86_64-efi"@,
                "--efi-directory=/boot/efi"@,
                "--boot-directory=/boot"@,
                "--bootloader-id=kiln"@,
            ],
            stdin: None,
            policy: PolicyView::Explain { line: NO_BOOT_ENTRY@ },
            binds: None,
        },
        must(
            "grub-mkconfig"@,
            seq!["chroot"@, dep, "grub-mkconfig"@, "-o"@, "/boot/grub/grub.cfg"@],
        ),
        must(
            "mv grub.cfg into the loader directory"@,
            seq!["chroot"@, dep, "mv"@, "/boot/grub/grub.cfg"@, "/boot/loader/grub.cfg"@],
        ),
        must(
            "link grub.cfg to the loader directory"@,
            seq![
                "chroot"@,
                dep,
                "ln"@,
                "-sf"@,
                "../loader/grub.cfg"@,
                "/boot/grub/grub.cfg"@,
            ],
        ),
    ]
}

/// The bootloader step, with what its chroot needs.
pub open spec fn bootloader_tasks(dep: Text) -> Seq<TaskView> {
    enter_tasks(dep) + grub_tasks(dep)
}

/// The tasks of the bootloader step.
pub fn bootloader(dep: &str) -> (out: Vec<Task>)
    ensures
        out.deep_view() == bootloader_tasks(dep@),
{
    let mut out = enter(dep);
    schedule(
        &mut out,
        Line::new("chroot").arg(dep).arg("grub-install").arg("--target=x86_64-efi").arg(
            "--efi-directory=/boot/efi",
        ).arg("--boot-directory=/boot").arg("--removable").must("grub-install --removable"),
    );
    let named = Line::new("chroot").arg(dep).arg("grub-install").arg("--target=x86_64-efi").arg(
        "--efi-directory=/boot/efi",
    ).arg("--boot-directory=/boot").arg("--bootloader-id=kiln");
    schedule(
        &mut out,
        Task::Run {
            what: "grub-install".to_owned(),
            argv: named.argv,
            stdin: None,
            policy: Policy::Explain { line: NO_BOOT_ENTRY.to_owned() },
            binds: None,
        },
    );
    schedule(
        &mut out,
        Line::new("chroot").arg(dep).arg("grub-mkconfig").arg("-o").arg(
            "/boot/grub/grub.cfg",
        ).must("grub-mkconfig"),
    );
    schedule(
        &mut out,
        Line::new("chroot").arg(dep).arg("mv").arg("/boot/grub/grub.cfg").arg(
            "/boot/loader/grub.cfg",
        ).must("mv grub.cfg into the loader directory"),
    );
    schedule(
        &mut out,
        Line::new("chroot").arg(dep).arg("ln").arg("-sf").arg("../loader/grub.cfg").arg(
            "/boot/grub/grub.cfg",
        ).must("link grub.cfg to the loader directory"),
    );
    assert(out.deep_view() =~~= bootloader_tasks(dep@));
    out
}

/// Hostname, timezone, and the accounts, once, in the deployment's `/etc`.
/// `/home` and `/root` are symlinks into `/var`, which is empty until the first
/// boot, so their targets are made first. Passwords go in on stdin.
pub open spec fn account_tasks(dep: Text, a: AnswersView) -> Seq<TaskView> {
    seq![
        must(
            "seeding /var"@,
            seq!["chroot"@, dep, "mkdir"@, "-p"@, "-m"@, "0755"@, "/var/home"@],
        ),
        must(
            "seeding /var"@,
            seq!["chroot"@, dep, "mkdir"@, "-p"@, "-m"@, "0700"@, "/var/roothome"@],
        ),
        must(
            "systemd-firstboot"@,
            seq![
                "chroot"@,
                dep,
                "systemd-firstboot"@,
                "--force"@,
                "--hostname="@ + a.hostname,
                "--timezone="@ + a.timezone,
            ],
        ),
        must(
            "useradd"@,
            seq![
                "chroot"@,
                dep,
                "useradd"@,
                "--create-home"@,
                "--groups"@,
                "wheel"@,
                "--shell"@,
                "/bin/bash"@,
                a.username,
            ],
        ),
        piped(
            "chpasswd"@,
            seq!["chroot"@, dep, "chpasswd"@],
            a.username + ":"@ + a.user_password + "\n"@,
        ),
        if a.root_password.len() == 0 {
            must("locking root"@, seq!["chroot"@, dep, "passwd"@, "--lock"@, "root"@])
        } else {
            piped(
                "chpasswd root"@,
                seq!["chroot"@, dep, "chpasswd"@],
                "root:"@ + a.root_password + "\n"@,
            )
        },
    ]
}

/// The accounts step, with what its chroot needs.
pub open spec fn accounts_tasks(dep: Text, a: AnswersView) -> Seq<TaskView> {
    enter_tasks(dep) + account_tasks(dep, a)
}

/// The tasks of the accounts step.
pub fn accounts(dep: &str, a: &Answers) -> (out: Vec<Task>)
    ensures
        out.deep_view() == accounts_tasks(dep@, a@),
{
    let hostname = "--hostname=".to_owned().concat(a.hostname.as_str());
    let timezone = "--timezone=".to_owned().concat(a.timezone.as_str());
    let mut out = enter(dep);
    schedule(
        &mut out,
        Line::new("chroot").arg(dep).arg("mkdir").arg("-p").arg("-m").arg("0755").arg(
            "/var/home",
        ).must("seeding /var"),
    );
    schedule(
        &mut out,
        Line::new("chroot").arg(dep).arg("mkdir").arg("-p").arg("-m").arg("0700").arg(
            "/var/roothome",
        ).must("seeding /var"),
    );
    schedule(
        &mut out,
        Line::new("chroot").arg(dep).arg("systemd-firstboot").arg("--force").arg(
            hostname.as_str(),
        ).arg(timezone.as_str()).must("systemd-firstboot"),
    );
    schedule(
        &mut out,
        Line::new("chroot").arg(dep).arg("useradd").arg("--create-home").arg("--groups").arg(
            "wheel",
        ).arg("--shell").arg("/bin/bash").arg(a.username.as_str()).must("useradd"),
    );
    let user = a.username.clone().concat(":").concat(a.user_password.as_str()).concat("\n");
    schedule(&mut out, Line::new("chroot").arg(dep).arg("chpasswd").piped("chpasswd", user.as_str()));
    if a.root_password.as_str().is_empty() {
        schedule(
            &mut out,
            Line::new("chroot").arg(dep).arg("passwd").arg("--lock").arg("root").must(
                "locking root",
            ),
        );
    } else {
        let root = "root:".to_owned().concat(a.root_password.as_str()).concat("\n");
        schedule(
            &mut out,
            Line::new("chroot").arg(dep).arg("chpasswd").piped("chpasswd root", root.as_str()),
        );
    }
    assert(out.deep_view() =~~= accounts_tasks(dep@, a@));
    out
}

/// Unmounting, recursively: an ESP left mounted is one with dirty pages on it
/// when the machine is powered off. An encrypted root is closed after it.
pub open spec fn finish_tasks(a: AnswersView) -> Seq<TaskView> {
    seq![must("umount"@, seq!["umount"@, "--recursive"@, MNT@])] + if a.encrypt {
        seq![must("cryptsetup close"@, seq!["cryptsetup"@, "close"@, LUKS_NAME@])]
    } else {
        Seq::empty()
    }
}

/// The tasks of the finish step.
pub fn finish(a: &Answers) -> (out: Vec<Task>)
    ensures
        out.deep_view() == finish_tasks(a@),
{
    let mut out = no_tasks();
    schedule(&mut out, Line::new("umount").arg("--recursive").arg(MNT).must("umount"));
    if a.encrypt {
        schedule(
            &mut out,
            Line::new("cryptsetup").arg("close").arg(LUKS_NAME).must("cryptsetup close"),
        );
    }
    assert(out.deep_view() =~~= finish_tasks(a@));
    out
}

/// The unmounting of a bind mount. It may fail: what did not happen here is
/// dealt with by the recursive unmount at the end, and giving up would leave
/// the remaining mounts in place.
pub open spec fn unmount_task(at: Text) -> TaskView {
    may("umount"@, seq!["umount"@, "--recursive"@, "--lazy"@, at])
}

/// The unmounting of a bind mount.
pub fn unmount(at: &str) -> (out: Task)
    ensures
        out@ == unmount_task(at@),
{
    Line::new("umount").arg("--recursive").arg("--lazy").arg(at).may("umount")
}

/// `/boot` and the ESP stay in the clear: encryption changes neither where they
/// are nor anything that is done to them, and is about the third partition
/// alone.
pub proof fn lemma_boot_stays_in_the_clear(a: AnswersView, b: AnswersView, dry_run: bool)
    requires
        !a.encrypt,
        b == (AnswersView { encrypt: true, passphrase: b.passphrase, ..a }),
    ensures
        blank_layout(b, dry_run).esp == blank_layout(a, dry_run).esp,
        blank_layout(b, dry_run).boot == blank_layout(a, dry_run).boot,
        partition_tasks(b, dry_run) == partition_tasks(a, dry_run) + container_tasks(b, dry_run),
        forall|k: int|
            0 <= k < container_tasks(b, dry_run).len() ==> match #[trigger] container_tasks(
                b,
                dry_run,
            )[k] {
                TaskView::Run { what, argv, stdin, policy, binds } => argv.contains(
                    b.disk.partition(3),
                ),
                TaskView::Identify { slot, device } => device == b.disk.partition(3),
                _ => false,
            },
{
    assert(partition_tasks(b, dry_run) =~= partition_tasks(a, dry_run) + container_tasks(
        b,
        dry_run,
    ));
    let part = b.disk.partition(3);
    let made = seq![
        "cryptsetup"@,
        "luksFormat"@,
        "--type"@,
        "luks2"@,
        "--batch-mode"@,
        "--key-file=-"@,
        part,
    ];
    let opened = seq!["cryptsetup"@, "open"@, "--key-file=-"@, part, LUKS_NAME@];
    assert(made[6] == part);
    assert(opened[3] == part);
}

// ---------------------------------------------------------------------------
// Laws
// ---------------------------------------------------------------------------

/// Whether a task is this command, which has to succeed, with nothing piped to
/// it.
pub open spec fn commands(task: TaskView, words: Seq<Text>) -> bool {
    task matches TaskView::Run { what, argv, stdin, policy, binds } && argv == words
        && stdin is None && policy == PolicyView::Abort
}

/// Whether a task is this command, which has to succeed, with this on its
/// stdin.
pub open spec fn pipes(task: TaskView, words: Seq<Text>, text: Text) -> bool {
    task matches TaskView::Run { what, argv, stdin, policy, binds } && argv == words && stdin
        == Some(text) && policy == PolicyView::Abort
}

/// Whether some task is this command, which has to succeed, with nothing piped
/// to it.
pub open spec fn has_command(tasks: Seq<TaskView>, words: Seq<Text>) -> bool {
    exists|k: int| 0 <= k < tasks.len() && commands(#[trigger] tasks[k], words)
}

/// Whether some task is this command, which has to succeed, with this on its
/// stdin.
pub open spec fn has_pipe(tasks: Seq<TaskView>, words: Seq<Text>, text: Text) -> bool {
    exists|k: int| 0 <= k < tasks.len() && pipes(#[trigger] tasks[k], words, text)
}

/// Root is locked exactly when it has no password. Without one the step locks
/// it, and all that is ever piped is the user's own line, which is not one for
/// root; with one the step pipes exactly that password for root, and locks
/// nothing. The other answers have no say in it.
pub proof fn lemma_root_is_locked_without_a_password(dep: Text, a: AnswersView)
    ensures
        a.root_password.len() == 0 ==> {
            &&& has_command(
                accounts_tasks(dep, a),
                seq!["chroot"@, dep, "passwd"@, "--lock"@, "root"@],
            )
            &&& forall|k: int|
                0 <= k < accounts_tasks(dep, a).len() ==> (#[trigger] accounts_tasks(
                    dep,
                    a,
                )[k] matches TaskView::Run { what, argv, stdin, policy, binds } ==> (
                stdin matches Some(t) ==> t == a.username + ":"@ + a.user_password + "\n"@ && (
                CheckView::Username.complaint(a.username) is None ==> !text::begins(t, "root:"@))))
        },
        a.root_password.len() > 0 ==> {
            &&& has_pipe(
                accounts_tasks(dep, a),
                seq!["chroot"@, dep, "chpasswd"@],
                "root:"@ + a.root_password + "\n"@,
            )
            &&& forall|k: int|
                0 <= k < accounts_tasks(dep, a).len() ==> (#[trigger] accounts_tasks(
                    dep,
                    a,
                )[k] matches TaskView::Run { what, argv, stdin, policy, binds } ==> !(argv.len() > 2
                    && argv[0] == "chroot"@ && argv[2] == "passwd"@))
        },
{
    let tasks = accounts_tasks(dep, a);
    let own = account_tasks(dep, a);
    lemma_entering_is_quiet(dep);
    let n = enter_tasks(dep).len() as int;
    assert(tasks.len() == n + 6);
    assert(tasks[n + 5] == own[5]);
    if a.root_password.len() == 0 {
        assert(commands(tasks[n + 5], seq!["chroot"@, dep, "passwd"@, "--lock"@, "root"@]));
    } else {
        assert(pipes(
            tasks[n + 5],
            seq!["chroot"@, dep, "chpasswd"@],
            "root:"@ + a.root_password + "\n"@,
        ));
    }
    let line = a.username + ":"@ + a.user_password + "\n"@;
    if CheckView::Username.complaint(a.username) is None {
        lemma_user_line_is_not_for_root(a.username, a.user_password);
    }
    reveal_strlit("chroot");
    reveal_strlit("mkdir");
    reveal_strlit("mount");
    assert forall|k: int| 0 <= k < tasks.len() implies (#[trigger] tasks[k] matches TaskView::Run {
        what,
        argv,
        stdin,
        policy,
        binds,
    } ==> {
        &&& a.root_password.len() == 0 ==> (stdin matches Some(t) ==> t == line && (
        CheckView::Username.complaint(a.username) is None ==> !text::begins(t, "root:"@)))
        &&& a.root_password.len() > 0 ==> !(argv.len() > 2 && argv[0] == "chroot"@ && argv[2]
            == "passwd"@)
    }) by {
        if k < n {
            assert(tasks[k] == enter_tasks(dep)[k]);
            assert("mkdir"@.len() == 5 && "mount"@.len() == 5 && "chroot"@.len() == 6);
            assert(enter_tasks(dep)[k]->argv[0] != "chroot"@);
            assert(enter_tasks(dep)[k]->stdin is None);
        } else {
            assert(tasks[k] == own[k - n]);
            lemma_account_task(dep, a, k - n);
            assert(a.root_password.len() == 0 && own[k - n]->stdin is Some ==> own[k - n]->stdin
                == Some(line));
        }
    }
}

proof fn lemma_account_task(dep: Text, a: AnswersView, k: int)
    requires
        0 <= k < account_tasks(dep, a).len(),
    ensures
        account_tasks(dep, a)[k] matches TaskView::Run { what, argv, stdin, policy, binds } && {
            &&& a.root_password.len() == 0 ==> (stdin matches Some(t) ==> t == a.username + ":"@
                + a.user_password + "\n"@)
            &&& a.root_password.len() > 0 ==> !(argv.len() > 2 && argv[0] == "chroot"@ && argv[2]
                == "passwd"@)
        },
{
    reveal_strlit("mkdir");
    reveal_strlit("passwd");
    reveal_strlit("systemd-firstboot");
    reveal_strlit("useradd");
    reveal_strlit("chpasswd");
    let own = account_tasks(dep, a);
    assert(k == 0 || k == 1 || k == 2 || k == 3 || k == 4 || k == 5);
    assert(own[0]->argv[2] == "mkdir"@);
    assert(own[1]->argv[2] == "mkdir"@);
    assert(own[2]->argv[2] == "systemd-firstboot"@);
    assert(own[3]->argv[2] == "useradd"@);
    assert(own[4]->argv[2] == "chpasswd"@);
    if a.root_password.len() > 0 {
        assert(own[5]->argv[2] == "chpasswd"@);
    }
}

proof fn lemma_user_line_is_not_for_root(username: Text, password: Text)
    requires
        CheckView::Username.complaint(username) is None,
    ensures
        !text::begins(username + ":"@ + password + "\n"@, "root:"@),
{
    reveal_strlit("root:");
    reveal_strlit("root");
    reveal_strlit(":");
    let t = username + ":"@ + password + "\n"@;
    if text::begins(t, "root:"@) {
        let cut = t.subrange(0, 5);
        assert(cut[4] == ':' && cut[0] == 'r' && cut[1] == 'o' && cut[2] == 'o' && cut[3] == 't');
        if username.len() > 4 {
            assert(username[4] == t[4]);
            assert(rules::Alphabet::Username.holds(username[4]));
        } else if username.len() < 4 {
            assert(t[username.len() as int] == ':');
        } else {
            assert(username =~= "root"@);
        }
    }
}

proof fn lemma_entering_is_quiet(dep: Text)
    ensures
        enter_tasks(dep).len() == 14,
        forall|k: int|
            0 <= k < enter_tasks(dep).len() ==> (#[trigger] enter_tasks(
                dep,
            )[k] matches TaskView::Run { what, argv, stdin, policy, binds } && stdin is None
                && policy == PolicyView::Abort && argv.len() >= 3 && (argv[0] == "mkdir"@ || argv[0]
                == "mount"@)),
{
}

/// The account is made as it was asked for: the directories for homes first,
/// then the machine's name and timezone, then the user with a home and in
/// `wheel`, and then, to nobody else, the user's password. Every one of these
/// has to succeed.
pub proof fn lemma_the_user_is_made(dep: Text, a: AnswersView)
    ensures
        ({
                let t = accounts_tasks(dep, a);
                &&& commands(
                    t[14],
                    seq!["chroot"@, dep, "mkdir"@, "-p"@, "-m"@, "0755"@, "/var/home"@],
                )
                &&& commands(
                    t[16],
                    seq![
                        "chroot"@,
                        dep,
                        "systemd-firstboot"@,
                        "--force"@,
                        "--hostname="@ + a.hostname,
                        "--timezone="@ + a.timezone,
                    ],
                )
                &&& commands(
                    t[17],
                    seq![
                        "chroot"@,
                        dep,
                        "useradd"@,
                        "--create-home"@,
                        "--groups"@,
                        "wheel"@,
                        "--shell"@,
                        "/bin/bash"@,
                        a.username,
                    ],
                )
                &&& pipes(
                    t[18],
                    seq!["chroot"@, dep, "chpasswd"@],
                    a.username + ":"@ + a.user_password + "\n"@,
                )
            }),
        has_command(
            accounts_tasks(dep, a),
            seq!["chroot"@, dep, "mkdir"@, "-p"@, "-m"@, "0700"@, "/var/roothome"@],
        ),
        accounts_tasks(dep, a).len() == 20,
{
    let t = accounts_tasks(dep, a);
    let own = account_tasks(dep, a);
    lemma_entering_is_quiet(dep);
    assert(t[14] == own[0] && t[15] == own[1] && t[16] == own[2] && t[17] == own[3] && t[18]
        == own[4]);
    assert(commands(
        t[14],
        seq!["chroot"@, dep, "mkdir"@, "-p"@, "-m"@, "0755"@, "/var/home"@],
    ));
    assert(commands(
        t[15],
        seq!["chroot"@, dep, "mkdir"@, "-p"@, "-m"@, "0700"@, "/var/roothome"@],
    ));
}

/// A chroot is prepared before anything runs in it: the first fourteen tasks
/// make a mount point and then mount on it, seven times, and each mount is noted
/// to be undone. What needs the mounts below it is bound with them.
pub proof fn lemma_chroot_is_prepared(dep: Text, i: int)
    requires
        0 <= i < 7,
        dep.len() > 0,
        dep.last() != '/',
    ensures
        ({
            let name = seq!["sysroot"@, "boot"@, "var"@, "dev"@, "proc"@, "sys"@, "run"@][i];
            let from = seq![
                "/mnt"@,
                "/mnt/boot"@,
                "/mnt/ostree/deploy/kiln/var"@,
                "/dev"@,
                "/proc"@,
                "/sys"@,
                "/run"@,
            ][i];
            let flag = if name == "sysroot"@ || name == "var"@ {
                "--bind"@
            } else {
                "--rbind"@
            };
            let to = dep + "/"@ + name;
            let make = enter_tasks(dep)[2 * i];
            let mount = enter_tasks(dep)[2 * i + 1];
            &&& enter_tasks(dep).len() == 14
            &&& commands(make, seq!["mkdir"@, "-p"@, to])
            &&& commands(mount, seq!["mount"@, flag, from, to])
            &&& mount->binds == Some(to)
            &&& make->binds is None
        }),
{
    lemma_bind_places(dep);
    let names = seq!["sysroot"@, "boot"@, "var"@, "dev"@, "proc"@, "sys"@, "run"@];
    let name = names[i];
    reveal_strlit("sysroot");
    reveal_strlit("boot");
    reveal_strlit("var");
    reveal_strlit("dev");
    reveal_strlit("proc");
    reveal_strlit("sys");
    reveal_strlit("run");
    assert("sysroot"@ != "boot"@ && "sysroot"@ != "proc"@ && "var"@ != "boot"@ && "var"@ != "proc"@);
    assert("var"@[0] == 'v' && "dev"@[0] == 'd' && "sys"@[0] == 's' && "run"@[0] == 'r');
    assert(i == 0 || i == 1 || i == 2 || i == 3 || i == 4 || i == 5 || i == 6);
    assert(enter_tasks(dep)[0] == bind_tasks(MNT@, dep + "/"@ + "sysroot"@, false)[0]);
    assert(enter_tasks(dep)[1] == bind_tasks(MNT@, dep + "/"@ + "sysroot"@, false)[1]);
}

proof fn lemma_bind_places(dep: Text)
    requires
        dep.len() > 0,
        dep.last() != '/',
    ensures
        path::under(dep, "sysroot"@) == dep + "/"@ + "sysroot"@,
        path::under(dep, "boot"@) == dep + "/"@ + "boot"@,
        path::under(dep, "var"@) == dep + "/"@ + "var"@,
        path::under(dep, "dev"@) == dep + "/"@ + "dev"@,
        path::under(dep, "proc"@) == dep + "/"@ + "proc"@,
        path::under(dep, "sys"@) == dep + "/"@ + "sys"@,
        path::under(dep, "run"@) == dep + "/"@ + "run"@,
        path::under(MNT@, "boot"@) == "/mnt/boot"@,
        stateroot_var() == "/mnt/ostree/deploy/kiln/var"@,
        staged() == "/mnt/etc/kiln"@,
{
    reveal_strlit("sysroot");
    reveal_strlit("boot");
    reveal_strlit("var");
    reveal_strlit("dev");
    reveal_strlit("proc");
    reveal_strlit("sys");
    reveal_strlit("run");
    reveal_strlit("/");
    reveal_strlit("/mnt");
    reveal_strlit("/mnt/boot");
    reveal_strlit("ostree/deploy");
    reveal_strlit("kiln");
    reveal_strlit("etc/kiln");
    reveal_strlit("/mnt/etc/kiln");
    reveal_strlit("/mnt/ostree/deploy/kiln/var");
    assert(path::under(MNT@, "boot"@) =~= "/mnt/boot"@);
    assert(staged() =~= "/mnt/etc/kiln"@);
    let one = path::under(MNT@, "ostree/deploy"@);
    assert(one =~= "/mnt"@ + "/"@ + "ostree/deploy"@);
    let two = path::under(one, STATEROOT@);
    assert(two =~= one + "/"@ + "kiln"@);
    assert(stateroot_var() =~= two + "/"@ + "var"@);
    assert(stateroot_var() =~= "/mnt/ostree/deploy/kiln/var"@);
}

/// The disk is wiped, its table is zapped, and three partitions are made on it,
/// in that order, and the kernel is told before anything else is done; every
/// one of these names the chosen disk and has to succeed. The first partition
/// is a gibibyte for the ESP, the second one for `/boot`, and the third takes
/// the rest.
pub proof fn lemma_only_the_chosen_disk_is_partitioned(a: AnswersView, dry_run: bool)
    ensures
        ({
            let t = partition_tasks(a, dry_run);
            let words = t[2]->argv;
            &&& t.len() >= 5
            &&& !a.encrypt ==> t.len() == 5
            &&& commands(t[0], seq!["wipefs"@, "--all"@, a.disk.path])
            &&& commands(t[1], seq!["sgdisk"@, "--zap-all"@, a.disk.path])
            &&& commands(t[2], words) && words[0] == "sgdisk"@ && words.last() == a.disk.path
            &&& words.len() == 11
            &&& words.contains("--new=1:0:+1024M"@) && words.contains("--typecode=1:ef00"@)
            &&& words.contains("--new=2:0:+1024M"@) && words.contains("--typecode=2:8300"@)
            &&& words.contains("--new=3:0:0"@) && words.contains("--typecode=3:8300"@)
            &&& commands(t[3], seq!["partprobe"@, a.disk.path])
            &&& commands(t[4], seq!["udevadm"@, "settle"@])
        }),
{
    let t = partition_tasks(a, dry_run);
    let words = t[2]->argv;
    reveal_strlit("--new=1:0:+");
    reveal_strlit("--new=1:0:+1024M");
    reveal_strlit("--new=2:0:+");
    reveal_strlit("--new=2:0:+1024M");
    reveal_strlit("M");
    lemma_a_gibibyte();
    assert("--new=1:0:+"@ + text::decimal(1024) + "M"@ =~= "--new=1:0:+1024M"@);
    assert("--new=2:0:+"@ + text::decimal(1024) + "M"@ =~= "--new=2:0:+1024M"@);
    assert(words[1] == "--new=1:0:+1024M"@ && words[2] == "--typecode=1:ef00"@);
    assert(words[4] == "--new=2:0:+1024M"@ && words[5] == "--typecode=2:8300"@);
    assert(words[7] == "--new=3:0:0"@ && words[8] == "--typecode=3:8300"@);
}

proof fn lemma_a_gibibyte()
    ensures
        text::decimal(1024) == seq!['1', '0', '2', '4'],
{
    reveal_with_fuel(text::decimal, 5);
    assert(text::digit(1) == '1' && text::digit(0) == '0' && text::digit(2) == '2' && text::digit(4)
        == '4');
    assert(text::decimal(1024) =~= seq!['1', '0', '2', '4']);
}

/// An encrypted root is made and opened with its passphrase on stdin, after the
/// partitions and in that order, and it is opened under the name that the
/// filesystem is then made on.
pub proof fn lemma_the_container_is_made_and_opened(a: AnswersView, dry_run: bool)
    requires
        a.encrypt,
    ensures
        ({
            let t = partition_tasks(a, dry_run);
            let part = a.disk.partition(3);
            &&& t.len() == (if dry_run { 7int } else { 8int })
            &&& pipes(
                t[5],
                seq![
                    "cryptsetup"@,
                    "luksFormat"@,
                    "--type"@,
                    "luks2"@,
                    "--batch-mode"@,
                    "--key-file=-"@,
                    part,
                ],
                a.passphrase,
            )
            &&& !dry_run ==> t[6] == (TaskView::Identify { slot: Slot::Luks, device: part })
            &&& pipes(
                t.last(),
                seq!["cryptsetup"@, "open"@, "--key-file=-"@, part, "root"@],
                a.passphrase,
            )
            &&& root_device(a) == "/dev/mapper/"@ + "root"@
        }),
{
    reveal_strlit("/dev/mapper/root");
    reveal_strlit("/dev/mapper/");
    reveal_strlit("root");
    assert("/dev/mapper/root"@ =~= "/dev/mapper/"@ + "root"@);
    assert(partition_tasks(a, dry_run)[5] == container_tasks(a, dry_run)[0]);
}

/// Each filesystem is made on its own device, before any is asked for its UUID,
/// and each is asked for: vfat on the ESP, ext4 on `/boot` and on root.
pub proof fn lemma_filesystems_are_made(l: LayoutView, dry_run: bool)
    ensures
        ({
            let t = format_tasks(l, dry_run);
            &&& commands(t[0], seq!["mkfs.fat"@, "-F"@, "32"@, "-n"@, "KILN-ESP"@, l.esp])
            &&& commands(t[1], seq!["mkfs.ext4"@, "-F"@, "-L"@, "kiln-boot"@, l.boot])
            &&& commands(t[2], seq!["mkfs.ext4"@, "-F"@, "-L"@, "kiln-root"@, l.root])
            &&& commands(t[3], seq!["udevadm"@, "settle"@])
            &&& dry_run ==> t.len() == 4
            &&& !dry_run ==> t.len() == 7 && t.contains(
                TaskView::Identify { slot: Slot::Esp, device: l.esp },
            ) && t.contains(TaskView::Identify { slot: Slot::Boot, device: l.boot })
                && t.contains(TaskView::Identify { slot: Slot::Root, device: l.root })
        }),
{
    let t = format_tasks(l, dry_run);
    if !dry_run {
        assert(t[4] == (TaskView::Identify { slot: Slot::Esp, device: l.esp }));
        assert(t[5] == (TaskView::Identify { slot: Slot::Boot, device: l.boot }));
        assert(t[6] == (TaskView::Identify { slot: Slot::Root, device: l.root }));
    }
}

/// Root is mounted first, then `/boot` on it, then the ESP on that, each on a
/// directory made just before. What was there before is unmounted first, and
/// that alone may fail.
pub proof fn lemma_mounts_go_from_the_root_down(l: LayoutView)
    ensures
        ({
            let t = mount_tasks(l);
            &&& t.len() == 9
            &&& t[0]->argv == seq!["umount"@, l.esp] && t[1]->argv == seq!["umount"@, l.boot]
                && t[2]->argv == seq!["umount"@, l.root]
            &&& commands(t[3], seq!["mkdir"@, "-p"@, "/mnt"@])
            &&& commands(t[4], seq!["mount"@, l.root, "/mnt"@])
            &&& commands(t[5], seq!["mkdir"@, "-p"@, "/mnt/boot"@])
            &&& commands(t[6], seq!["mount"@, l.boot, "/mnt/boot"@])
            &&& commands(t[7], seq!["mkdir"@, "-p"@, "/mnt/boot/efi"@])
            &&& commands(t[8], seq!["mount"@, l.esp, "/mnt/boot/efi"@])
            &&& forall|k: int|
                0 <= k < t.len() ==> ((#[trigger] t[k])->policy == PolicyView::Ignore <==> k < 3)
        }),
{
    reveal_strlit("/mnt");
    reveal_strlit("/boot");
    reveal_strlit("/boot/efi");
    reveal_strlit("/mnt/boot");
    reveal_strlit("/mnt/boot/efi");
    assert(MNT@ + "/boot"@ =~= "/mnt/boot"@);
    assert(MNT@ + "/boot/efi"@ =~= "/mnt/boot/efi"@);
}

/// Kiln is told to set up its storage, to build from the
/// configuration that was written, with the library named exactly when it is
/// not the usual one, and to deploy the first generation.
pub proof fn lemma_what_kiln_is_told(module_root: Text, a: AnswersView, dry_run: bool)
    ensures
        sysroot_tasks().len() == 1 && commands(
            sysroot_tasks()[0],
            seq!["kiln"@, "sysroot"@, "init"@, "/mnt"@],
        ),
        configure_tasks(a) == seq![
            TaskView::Write {
                at: "/mnt/etc/kiln/system.toml"@,
                content: config::configuration(a),
            },
        ],
        build_tasks(module_root).len() == 1,
        path::same_absolute(module_root, "/usr/share/kiln/modules"@) ==> commands(
            build_tasks(module_root)[0],
            seq!["kiln"@, "--sysroot"@, "/mnt"@, "--config"@, "/mnt/etc/kiln"@, "build"@],
        ),
        !path::same_absolute(module_root, "/usr/share/kiln/modules"@) ==> commands(
            build_tasks(module_root)[0],
            seq![
                "kiln"@,
                "--sysroot"@,
                "/mnt"@,
                "--config"@,
                "/mnt/etc/kiln"@,
                "--module-root"@,
                module_root,
                "build"@,
            ],
        ),
        build_tasks(module_root)[0]->what == "kiln build"@,
        commands(
            deploy_tasks(dry_run)[0],
            seq!["kiln"@, "--sysroot"@, "/mnt"@, "deploy"@, "1"@],
        ),
        deploy_tasks(dry_run).len() == (if dry_run {
            1int
        } else {
            2int
        }),
        !dry_run ==> deploy_tasks(dry_run)[1] == TaskView::Locate,
{
    lemma_bind_places(seq!['x']);
    reveal_strlit("/mnt/etc/kiln");
    reveal_strlit("system.toml");
    reveal_strlit("/");
    reveal_strlit("/mnt/etc/kiln/system.toml");
    assert(path::under(staged(), "system.toml"@) =~= "/mnt/etc/kiln/system.toml"@);
    let argv = build_tasks(module_root)[0]->argv;
    if path::same_absolute(module_root, "/usr/share/kiln/modules"@) {
        assert(argv =~= seq![
            "kiln"@,
            "--sysroot"@,
            "/mnt"@,
            "--config"@,
            "/mnt/etc/kiln"@,
            "build"@,
        ]);
    } else {
        assert(argv =~= seq![
            "kiln"@,
            "--sysroot"@,
            "/mnt"@,
            "--config"@,
            "/mnt/etc/kiln"@,
            "--module-root"@,
            module_root,
            "build"@,
        ]);
    }
    assert(configure_tasks(a) =~= seq![
        TaskView::Write {
            at: "/mnt/etc/kiln/system.toml"@,
            content: config::configuration(a),
        },
    ]);
}

/// The configuration is moved: what was written for the build is copied into
/// the deployment and only then removed, and `fstab` is written there too. Only
/// the removal of what may not be empty may fail.
pub proof fn lemma_the_configuration_is_moved(dep: Text, l: LayoutView)
    requires
        dep.len() > 0,
        dep.last() != '/',
    ensures
        ({
            let t = etc_tasks(dep, l);
            let to = dep + "/etc/kiln"@;
            &&& t.len() == 5
            &&& t[0] == (TaskView::Write { at: dep + "/etc/fstab"@, content: fstab(l) })
            &&& commands(t[1], seq!["mkdir"@, "-p"@, to])
            &&& commands(t[2], seq!["cp"@, "-a"@, "/mnt/etc/kiln/."@, to])
            &&& commands(t[3], seq!["rm"@, "-r"@, "/mnt/etc/kiln"@])
            &&& t[4]->argv == seq!["rmdir"@, "--ignore-fail-on-non-empty"@, "/mnt/etc"@]
            &&& t[4]->policy == PolicyView::Ignore
        }),
{
    lemma_bind_places(dep);
    reveal_strlit("/");
    reveal_strlit(".");
    reveal_strlit("etc/kiln");
    reveal_strlit("/etc/kiln");
    reveal_strlit("etc/fstab");
    reveal_strlit("/etc/fstab");
    reveal_strlit("/etc");
    reveal_strlit("/mnt");
    reveal_strlit("/mnt/etc");
    reveal_strlit("/mnt/etc/kiln");
    reveal_strlit("/mnt/etc/kiln/.");
    assert(path::under(dep, "etc/kiln"@) =~= dep + "/etc/kiln"@);
    assert(path::under(dep, "etc/fstab"@) =~= dep + "/etc/fstab"@);
    assert(path::under(staged(), "."@) =~= "/mnt/etc/kiln/."@);
    assert(MNT@ + "/etc"@ =~= "/mnt/etc"@);
}

/// `fstab` has one line for each filesystem, after two of comment: root at `/`,
/// then `/boot`, then the ESP, each by its own UUID.
pub proof fn lemma_fstab_has_every_filesystem(l: LayoutView)
    requires
        !l.root_uuid.contains('\n'),
        !l.boot_uuid.contains('\n'),
        !l.esp_uuid.contains('\n'),
    ensures
        ({
            let lines = text::text_lines(fstab(l));
            &&& lines.len() == 5
            &&& lines[2] == "UUID="@ + l.root_uuid
                + "  /          ext4  rw,relatime                 0 0"@
            &&& lines[3] == "UUID="@ + l.boot_uuid
                + "  /boot      ext4  rw,relatime                 0 2"@
            &&& lines[4] == "UUID="@ + l.esp_uuid
                + "  /boot/efi  vfat  umask=0077,shortname=winnt  0 2"@
        }),
{
    let c1 = "# Written by terracotta-installer. The storage layout is the installer's, not"@;
    let c2 = "# Kiln's — `kiln status` deliberately never reports drift on this file."@;
    reveal_strlit("# Written by terracotta-installer. The storage layout is the installer's, not");
    reveal_strlit("# Written by terracotta-installer. The storage layout is the installer's, not\n");
    reveal_strlit("# Kiln's — `kiln status` deliberately never reports drift on this file.");
    reveal_strlit("# Kiln's — `kiln status` deliberately never reports drift on this file.\n");
    let e1 = "  /          ext4  rw,relatime                 0 0"@;
    let e2 = "  /boot      ext4  rw,relatime                 0 2"@;
    let e3 = "  /boot/efi  vfat  umask=0077,shortname=winnt  0 2"@;
    reveal_strlit("UUID=");
    reveal_strlit("  /          ext4  rw,relatime                 0 0");
    reveal_strlit("  /          ext4  rw,relatime                 0 0\n");
    reveal_strlit("  /boot      ext4  rw,relatime                 0 2");
    reveal_strlit("  /boot      ext4  rw,relatime                 0 2\n");
    reveal_strlit("  /boot/efi  vfat  umask=0077,shortname=winnt  0 2");
    reveal_strlit("  /boot/efi  vfat  umask=0077,shortname=winnt  0 2\n");
    let l1 = "UUID="@ + l.root_uuid + e1;
    let l2 = "UUID="@ + l.boot_uuid + e2;
    let l3 = "UUID="@ + l.esp_uuid + e3;
    assert(text::is_line(c1));
    assert(text::is_line(c2));
    lemma_fstab_line(l.root_uuid, e1);
    lemma_fstab_line(l.boot_uuid, e2);
    lemma_fstab_line(l.esp_uuid, e3);
    let lines = seq![c1, c2, l1, l2, l3];
    assert forall|i: int| 0 <= i < lines.len() implies text::is_line(#[trigger] lines[i]) by {
        assert(i == 0 || i == 1 || i == 2 || i == 3 || i == 4);
    }
    text::lemma_lines(lines);
    assert(lines =~= seq![c1, c2] + seq![l1, l2, l3]);
    text::lemma_lined_apart(seq![c1, c2], seq![l1, l2, l3]);
    text::lemma_lined_two(c1, c2);
    text::lemma_lined_three(l1, l2, l3);
    assert("# Written by terracotta-installer. The storage layout is the installer's, not\n"@
        =~= c1 + seq!['\n']);
    assert("# Kiln's — `kiln status` deliberately never reports drift on this file.\n"@ =~= c2
        + seq!['\n']);
    assert("  /          ext4  rw,relatime                 0 0\n"@ =~= e1 + seq!['\n']);
    assert("  /boot      ext4  rw,relatime                 0 2\n"@ =~= e2 + seq!['\n']);
    assert("  /boot/efi  vfat  umask=0077,shortname=winnt  0 2\n"@ =~= e3 + seq!['\n']);
    assert(fstab(l) =~= text::lined(lines));
}

proof fn lemma_fstab_line(id: Text, rest: Text)
    requires
        !id.contains('\n'),
        rest.len() > 0,
        text::is_line(rest),
    ensures
        text::is_line("UUID="@ + id + rest),
{
    reveal_strlit("UUID=");
    let s = "UUID="@ + id + rest;
    assert forall|i: int| 0 <= i < s.len() implies s[i] != '\n' by {
        if 5 <= i < 5 + id.len() {
            assert(s[i] == id[i - 5]);
            assert(id.contains(id[i - 5]));
        } else if i >= 5 + id.len() {
            assert(s[i] == rest[i - 5 - id.len()]);
            assert(rest.contains(rest[i - 5 - id.len()]));
        }
    }
    assert(s.last() == rest.last());
}

/// The bootloader is installed in the deployment, after its mounts: the
/// fallback first, then the firmware's entry, which alone may fail and is then
/// explained, and only then the menu, which is moved to where libostree keeps
/// it and linked back.
pub proof fn lemma_the_fallback_comes_first(dep: Text)
    ensures
        ({
            let t = bootloader_tasks(dep);
            &&& t.len() == 19
            &&& forall|k: int| 0 <= k < 14 ==> #[trigger] t[k] == enter_tasks(dep)[k]
            &&& commands(
                t[14],
                seq![
                    "chroot"@,
                    dep,
                    "grub-install"@,
                    "--target=x86_64-efi"@,
                    "--efi-directory=/boot/efi"@,
                    "--boot-directory=/boot"@,
                    "--removable"@,
                ],
            )
            &&& t[15]->argv == seq![
                "chroot"@,
                dep,
                "grub-install"@,
                "--target=x86_64-efi"@,
                "--efi-directory=/boot/efi"@,
                "--boot-directory=/boot"@,
                "--bootloader-id=kiln"@,
            ]
            &&& t[15]->policy is Explain && t[15]->stdin is None
            &&& commands(
                t[16],
                seq!["chroot"@, dep, "grub-mkconfig"@, "-o"@, "/boot/grub/grub.cfg"@],
            )
            &&& commands(
                t[17],
                seq!["chroot"@, dep, "mv"@, "/boot/grub/grub.cfg"@, "/boot/loader/grub.cfg"@],
            )
            &&& commands(
                t[18],
                seq![
                    "chroot"@,
                    dep,
                    "ln"@,
                    "-sf"@,
                    "../loader/grub.cfg"@,
                    "/boot/grub/grub.cfg"@,
                ],
            )
        }),
{
    lemma_entering_is_quiet(dep);
    let t = bootloader_tasks(dep);
    let g = grub_tasks(dep);
    assert(t[14] == g[0] && t[15] == g[1] && t[16] == g[2] && t[17] == g[3] && t[18] == g[4]);
}

/// The same mounts come before the accounts.
pub proof fn lemma_accounts_come_after_the_mounts(dep: Text, a: AnswersView, k: int)
    requires
        0 <= k < 14,
    ensures
        accounts_tasks(dep, a)[k] == enter_tasks(dep)[k],
{
    lemma_entering_is_quiet(dep);
}

/// At the end everything is unmounted, and an encrypted root, and only that, is
/// closed after it.
pub proof fn lemma_the_end_unmounts_and_closes(a: AnswersView)
    ensures
        commands(finish_tasks(a)[0], seq!["umount"@, "--recursive"@, "/mnt"@]),
        !a.encrypt ==> finish_tasks(a).len() == 1,
        a.encrypt ==> finish_tasks(a).len() == 2 && commands(
            finish_tasks(a)[1],
            seq!["cryptsetup"@, "close"@, "root"@],
        ),
{
}

/// A bind mount is undone lazily and with all below it, and may fail.
pub proof fn lemma_unmounting_may_fail(at: Text)
    ensures
        unmount_task(at)->argv == seq!["umount"@, "--recursive"@, "--lazy"@, at],
        unmount_task(at)->policy == PolicyView::Ignore,
        unmount_task(at)->stdin is None && unmount_task(at)->binds is None,
{
}

/// The partitions are the first three of the chosen disk, with what the third is
/// opened as in its place when it is encrypted. UUIDs are made up for a dry run
/// alone, out of the device, and nothing else is.
pub proof fn lemma_layout_is_of_the_disk(a: AnswersView, dry_run: bool)
    ensures
        ({
            let l = blank_layout(a, dry_run);
            &&& l.esp == a.disk.partition(1) && l.boot == a.disk.partition(2)
            &&& !a.encrypt ==> l.root == a.disk.partition(3)
            &&& a.encrypt ==> l.root == "/dev/mapper/root"@
            &&& !dry_run ==> l.esp_uuid.len() == 0 && l.boot_uuid.len() == 0 && l.root_uuid.len()
                == 0
            &&& dry_run ==> l.esp_uuid == "dry-run-uuid-for-"@ + text::replaced(l.esp, '/', '_')
                && l.boot_uuid == "dry-run-uuid-for-"@ + text::replaced(l.boot, '/', '_')
                && l.root_uuid == "dry-run-uuid-for-"@ + text::replaced(l.root, '/', '_')
        }),
{
}

} // verus!
