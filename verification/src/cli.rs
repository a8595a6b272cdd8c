//! Arguments, the last screens, and what the program leaves behind.

use vstd::prelude::*;

use crate::interview::{Answers, AnswersView};
use crate::keys::Answer;
use crate::plan::{DEFAULT_MODULE_DIR, KILN_BUILD, LUKS_NAME, MNT};
use crate::run;
use crate::run::{Failed, FailedView};
use crate::text;
use crate::text::{emit, number, same, starts_with, Text};
use crate::tui::{Opt, OptView, Page, PageView, ACCENT, BOLD, DANGER, DIM, OK, RESET, WARN};

verus! {

// ---------------------------------------------------------------------------
// Arguments
// ---------------------------------------------------------------------------

/// What is printed for `--help`.
pub const USAGE: &'static str = "terracotta-installer — install Terracotta Linux on a disk\n\n  terracotta-installer                    run the installer\n  terracotta-installer --dry-run          ask everything, write nothing, print the plan\n  terracotta-installer --module-root DIR  a module library other than /usr/share/kiln/modules\n  terracotta-installer --version\n  terracotta-installer --help\n\nIt partitions one disk, initializes a Kiln sysroot on it, builds generation 1,\ndeploys it, installs GRUB and creates the first account. Every question is asked\nbefore anything is written, and Esc goes back a screen.\n\nKiln itself has no `install` verb and never will; this program drives the\n`kiln` binary through --sysroot, which is the whole of the contract between\nthem.\n";

/// How the program was called.
pub enum Command {
    /// Print the usage.
    Help,
    /// Print the version.
    Version,
    /// Run the installer.
    Install { dry_run: bool, module_root: String },
    /// Something is wrong with the arguments.
    Wrong { message: String },
}

/// What a `Command` holds, as contracts see it.
#[verifier::ext_equal]
pub enum CommandView {
    Help,
    Version,
    Install { dry_run: bool, module_root: Text },
    Wrong { message: Text },
}

impl View for Command {
    type V = CommandView;

    open spec fn view(&self) -> CommandView {
        match self {
            Command::Help => CommandView::Help,
            Command::Version => CommandView::Version,
            Command::Install { dry_run, module_root } => CommandView::Install {
                dry_run: *dry_run,
                module_root: module_root@,
            },
            Command::Wrong { message } => CommandView::Wrong { message: message@ },
        }
    }
}

/// What the arguments from the `i`-th on ask for, given those before it.
pub open spec fn parsed(argv: Seq<Text>, i: int, dry_run: bool, module_root: Text) -> CommandView
    decreases argv.len() - i,
{
    if i >= argv.len() {
        CommandView::Install { dry_run, module_root }
    } else if argv[i] == "-h"@ || argv[i] == "--help"@ {
        CommandView::Help
    } else if argv[i] == "--version"@ {
        CommandView::Version
    } else if argv[i] == "--dry-run"@ {
        parsed(argv, i + 1, true, module_root)
    } else if argv[i] == "--module-root"@ {
        if i + 1 < argv.len() {
            parsed(argv, i + 2, dry_run, argv[i + 1])
        } else {
            CommandView::Wrong { message: "--module-root needs a path"@ }
        }
    } else {
        CommandView::Wrong { message: "unknown option `"@ + argv[i] + "`; try --help"@ }
    }
}

/// Where the module library is unless an argument says otherwise.
pub open spec fn usual_root(env: Option<Text>) -> Text {
    match env {
        Some(dir) => dir,
        None => DEFAULT_MODULE_DIR@,
    }
}

/// What the arguments ask for. `module_dir` is what the environment says of the
/// module library, if it says anything.
pub fn parse(argv: &[String], module_dir: &Option<String>) -> (out: Command)
    ensures
        out@ == parsed(argv.deep_view(), 0, false, usual_root(module_dir.deep_view())),
{
    let ghost all = argv.deep_view();
    let mut dry_run = false;
    let mut module_root = match module_dir {
        Some(dir) => dir.clone(),
        None => DEFAULT_MODULE_DIR.to_owned(),
    };
    let ghost whole = parsed(all, 0, false, module_root@);
    let mut i: usize = 0;
    while i < argv.len()
        invariant
            all == argv.deep_view(),
            i <= argv.len(),
            whole == parsed(all, 0, false, usual_root(module_dir.deep_view())),
            whole == parsed(all, i as int, dry_run, module_root@),
        decreases argv.len() - i,
    {
        assert(all[i as int] == argv@[i as int]@);
        let a = argv[i].as_str();
        if same(a, "-h") || same(a, "--help") {
            return Command::Help;
        }
        if same(a, "--version") {
            return Command::Version;
        }
        if same(a, "--dry-run") {
            dry_run = true;
        } else if same(a, "--module-root") {
            if argv.len() - i < 2 {
                return Command::Wrong { message: "--module-root needs a path".to_owned() };
            }
            assert(all[i + 1] == argv@[i + 1]@);
            i += 1;
            module_root = argv[i].clone();
        } else {
            return Command::Wrong {
                message: "unknown option `".to_owned().concat(a).concat("`; try --help"),
            };
        }
        i += 1;
    }
    Command::Install { dry_run, module_root }
}

/// The line that is printed before giving up.
pub open spec fn error_line(message: Text) -> Text {
    DANGER@ + "error"@ + RESET@ + " "@ + message
}

/// The line that is printed before giving up.
pub fn die(message: &str) -> (out: String)
    ensures
        out@ == error_line(message@),
{
    DANGER.to_owned().concat("error").concat(RESET).concat(" ").concat(message)
}

// ---------------------------------------------------------------------------
// The end
// ---------------------------------------------------------------------------

/// The exit code of a refusal: a failed check, a bad argument, or any step but
/// the build.
pub const REFUSED: u8 = 4;

/// The exit code of a failed build.
pub const BUILD_FAILED: u8 = 3;

/// The exit code of a failed install. A script wrapping the installer should be
/// able to tell a build that failed from a system that refused.
pub open spec fn exit_status(e: FailedView) -> u8 {
    if text::begins(e.what, KILN_BUILD@) {
        BUILD_FAILED
    } else {
        REFUSED
    }
}

/// The exit code of a failed install.
pub fn exit_code(e: &Failed) -> (out: u8)
    ensures
        out == exit_status(e@),
{
    if starts_with(e.what.as_str(), KILN_BUILD) {
        BUILD_FAILED
    } else {
        REFUSED
    }
}

/// Two digits of a number below a hundred.
pub open spec fn two_digits(n: nat) -> Text {
    if n < 10 {
        "0"@ + text::decimal(n)
    } else {
        text::decimal(n)
    }
}

/// How long something took, in seconds or in minutes and seconds.
pub open spec fn duration(secs: nat) -> Text {
    if secs < 60 {
        text::decimal(secs) + "s"@
    } else {
        text::decimal(secs / 60) + "m"@ + two_digits(secs % 60) + "s"@
    }
}

/// How long something took.
pub fn format_duration(secs: u64) -> (out: String)
    ensures
        out@ == duration(secs as nat),
{
    if secs < 60 {
        number(secs).concat("s")
    } else {
        let rest: u64 = secs % 60;
        let digits = if rest < 10 {
            "0".to_owned().concat(number(rest).as_str())
        } else {
            number(rest)
        };
        number(secs / 60).concat("m").concat(digits.as_str()).concat("s")
    }
}

/// The last page of an install that went well.
pub open spec fn done_page(dry_run: bool, a: AnswersView, secs: nat) -> PageView {
    let titled = PageView::titled(
        (0, 0),
        if dry_run {
            "Dry run complete"@
        } else {
            "Installed"@
        },
    ).noted(DIM@ + "finished in "@ + duration(secs) + RESET@).noted(Seq::empty());
    let warned = if dry_run {
        titled.noted(
            WARN@ + "Nothing was written. Every command above is what a real run"@ + RESET@,
        ).noted(WARN@ + "would have executed, in order."@ + RESET@).noted(Seq::empty())
    } else {
        titled
    };
    let told = warned.noted(
        if dry_run {
            DIM@ + "Generation 1 would be on "@ + a.disk.path + " and set to boot."@ + RESET@
        } else {
            OK@ + "Generation 1 is on "@ + a.disk.path + " and set to boot."@ + RESET@
        },
    ).noted(Seq::empty()).noted(
        "  "@ + DIM@ + "configuration"@ + RESET@ + "  /etc/kiln/system.toml"@,
    ).noted("  "@ + DIM@ + "first user"@ + RESET@ + "     "@ + a.username + " (wheel)"@).noted(
        "  "@ + DIM@ + "hostname"@ + RESET@ + "       "@ + a.hostname,
    ).noted(Seq::empty());
    let taught = told.noted("Once it is up:"@).noted(
        "  "@ + ACCENT@ + "kiln status"@ + RESET@
            + "    what is booted, and whether /etc has drifted"@,
    ).noted("  "@ + ACCENT@ + "kiln check"@ + RESET@ + "     what a rebuild would change"@).noted(
        "  "@ + ACCENT@ + "kiln apply"@ + RESET@ + "     build the next generation and stage it"@,
    ).noted("  "@ + ACCENT@ + "kiln rollback"@ + RESET@ + "  if that was a mistake"@).noted(
        Seq::empty(),
    );
    taught.noted(
        DIM@ + "Generation 1 is the baseline: `kiln clean` will not remove it,"@ + RESET@,
    ).noted(DIM@ + "and a machine that fails to boot three times returns to it."@ + RESET@).noted(
        Seq::empty(),
    ).noted(
        if dry_run {
            "Run without --dry-run to do it for real."@
        } else {
            "Remove the installation medium, then choose below."@
        },
    ).helped(
        if dry_run {
            "enter · leave the installer"@
        } else {
            "↑↓ move · enter select"@
        },
    )
}

/// The last page of an install that went well. There is no screen to go back
/// to, so its legend does not offer that.
pub fn done(dry_run: bool, a: &Answers, secs: u64) -> (out: Page)
    ensures
        out@ == done_page(dry_run, a@, secs as nat),
{
    proof {
        reveal_strlit("");
    }
    assert(""@ == Seq::<char>::empty());
    let took = DIM.to_owned().concat("finished in ").concat(
        format_duration(secs).as_str(),
    ).concat(RESET);
    let titled = Page::new(
        (0, 0),
        if dry_run {
            "Dry run complete"
        } else {
            "Installed"
        },
    ).note(took.as_str()).note("");
    let warned = if dry_run {
        let first = WARN.to_owned().concat(
            "Nothing was written. Every command above is what a real run",
        ).concat(RESET);
        let second = WARN.to_owned().concat("would have executed, in order.").concat(RESET);
        titled.note(first.as_str()).note(second.as_str()).note("")
    } else {
        titled
    };
    let placed = if dry_run {
        DIM.to_owned().concat("Generation 1 would be on ").concat(a.disk.path.as_str()).concat(
            " and set to boot.",
        ).concat(RESET)
    } else {
        OK.to_owned().concat("Generation 1 is on ").concat(a.disk.path.as_str()).concat(
            " and set to boot.",
        ).concat(RESET)
    };
    let configured = "  ".to_owned().concat(DIM).concat("configuration").concat(RESET).concat(
        "  /etc/kiln/system.toml",
    );
    let user = "  ".to_owned().concat(DIM).concat("first user").concat(RESET).concat(
        "     ",
    ).concat(a.username.as_str()).concat(" (wheel)");
    let host = "  ".to_owned().concat(DIM).concat("hostname").concat(RESET).concat(
        "       ",
    ).concat(a.hostname.as_str());
    let told = warned.note(placed.as_str()).note("").note(configured.as_str()).note(
        user.as_str(),
    ).note(host.as_str()).note("");
    let status = "  ".to_owned().concat(ACCENT).concat("kiln status").concat(RESET).concat(
        "    what is booted, and whether /etc has drifted",
    );
    let check = "  ".to_owned().concat(ACCENT).concat("kiln check").concat(RESET).concat(
        "     what a rebuild would change",
    );
    let apply = "  ".to_owned().concat(ACCENT).concat("kiln apply").concat(RESET).concat(
        "     build the next generation and stage it",
    );
    let rollback = "  ".to_owned().concat(ACCENT).concat("kiln rollback").concat(RESET).concat(
        "  if that was a mistake",
    );
    let taught = told.note("Once it is up:").note(status.as_str()).note(check.as_str()).note(
        apply.as_str(),
    ).note(rollback.as_str()).note("");
    let baseline = DIM.to_owned().concat(
        "Generation 1 is the baseline: `kiln clean` will not remove it,",
    ).concat(RESET);
    let recovers = DIM.to_owned().concat(
        "and a machine that fails to boot three times returns to it.",
    ).concat(RESET);
    taught.note(baseline.as_str()).note(recovers.as_str()).note("").note(
        if dry_run {
            "Run without --dry-run to do it for real."
        } else {
            "Remove the installation medium, then choose below."
        },
    ).help(
        if dry_run {
            "enter · leave the installer"
        } else {
            "↑↓ move · enter select"
        },
    )
}

/// The choices at the end of an install that went well.
pub open spec fn done_options() -> Seq<OptView> {
    seq![
        OptView::plain("Reboot now"@, "into the system just installed"@),
        OptView::plain("Exit to a shell"@, "stay on the installation medium"@),
    ]
}

/// The choices at the end of an install that went well.
pub fn done_rows() -> (out: Vec<Opt>)
    ensures
        out.deep_view() == done_options(),
{
    let mut out: Vec<Opt> = Vec::new();
    out.push(Opt::new("Reboot now", "into the system just installed"));
    out.push(Opt::new("Exit to a shell", "stay on the installation medium"));
    assert(out.deep_view() =~= done_options());
    out
}

/// The last lines of a command, dimmed.
pub open spec fn dimmed(tail: Seq<Text>) -> Seq<Text> {
    tail.map_values(|line: Text| DIM@ + line + RESET@)
}

/// What is said about where everything that ran was logged. The log is the only
/// artefact a failed install leaves, so one that was never opened is not
/// pointed at.
pub open spec fn log_lines(log: Option<Text>) -> Seq<Text> {
    match log {
        Some(at) => seq![
            "Everything that ran is in "@ + BOLD@ + at + RESET@ + "."@,
            DIM@ + "On a live medium that is tmpfs — copy it somewhere before rebooting."@ + RESET@,
        ],
        None => seq![
            WARN@ + "Nothing was logged: "@ + run::LOG@ + " could not be opened for writing."@
                + RESET@,
        ],
    }
}

/// What is said about a failed install.
pub open spec fn summary_lines(e: FailedView, log: Option<Text>) -> Seq<Text> {
    seq![BOLD@ + e.sentence() + RESET@, Seq::<char>::empty()] + dimmed(e.tail) + seq![
        Seq::<char>::empty(),
    ] + log_lines(log) + seq![
        Seq::<char>::empty(),
        DIM@ + "The disk is in whatever state the failing step left it; running"@ + RESET@,
        DIM@ + "terracotta-installer again starts from an erase, which is a clean slate."@ + RESET@,
    ]
}

/// What is said about a failed install.
pub fn summary(e: &Failed, log: &Option<String>) -> (out: Vec<String>)
    ensures
        out.deep_view() == summary_lines(e@, log.deep_view()),
{
    let mut out: Vec<String> = Vec::new();
    emit(&mut out, BOLD.to_owned().concat(e.to_string().as_str()).concat(RESET));
    emit(&mut out, String::new());
    let ghost head = out.deep_view();
    let ghost lines = dimmed(e@.tail);
    let mut i: usize = 0;
    assert(head + lines.take(0) =~= head);
    while i < e.tail.len()
        invariant
            lines == dimmed(e@.tail),
            i <= e.tail.len(),
            out.deep_view() == head + lines.take(i as int),
        decreases e.tail.len() - i,
    {
        let line = DIM.to_owned().concat(e.tail[i].as_str()).concat(RESET);
        assert(lines[i as int] == line@);
        assert(lines.take(i + 1) == lines.take(i as int).push(line@));
        assert((head + lines.take(i as int)).push(line@) =~= head + lines.take(i + 1));
        emit(&mut out, line);
        i += 1;
    }
    assert(lines.take(i as int) == lines);
    emit(&mut out, String::new());
    match log {
        Some(at) => {
            emit(
                &mut out,
                "Everything that ran is in ".to_owned().concat(BOLD).concat(at.as_str()).concat(
                    RESET,
                ).concat("."),
            );
            emit(
                &mut out,
                DIM.to_owned().concat(
                    "On a live medium that is tmpfs — copy it somewhere before rebooting.",
                ).concat(RESET),
            );
        },
        None => {
            emit(
                &mut out,
                WARN.to_owned().concat("Nothing was logged: ").concat(run::LOG).concat(
                    " could not be opened for writing.",
                ).concat(RESET),
            );
        },
    }
    emit(&mut out, String::new());
    emit(
        &mut out,
        DIM.to_owned().concat(
            "The disk is in whatever state the failing step left it; running",
        ).concat(RESET),
    );
    emit(
        &mut out,
        DIM.to_owned().concat(
            "terracotta-installer again starts from an erase, which is a clean slate.",
        ).concat(RESET),
    );
    assert(out.deep_view() =~= summary_lines(e@, log.deep_view()));
    out
}

/// The page of a failed install.
pub open spec fn failed_page(summary: Seq<Text>) -> PageView {
    PageView {
        step: (0, 0),
        title: "The install failed"@,
        note: seq![Seq::<char>::empty()] + summary,
        help: Some("↑↓ move · enter select"@),
    }
}

/// The page of a failed install.
pub fn failed(e: &Failed, log: &Option<String>) -> (out: Page)
    ensures
        out@ == failed_page(summary_lines(e@, log.deep_view())),
{
    proof {
        reveal_strlit("");
    }
    assert(""@ == Seq::<char>::empty());
    let lines = summary(e, log);
    let ghost all = lines.deep_view();
    let mut page = Page::new((0, 0), "The install failed").note("");
    let mut i: usize = 0;
    assert(page@.note =~= seq![Seq::<char>::empty()] + all.take(0));
    while i < lines.len()
        invariant
            all == lines.deep_view(),
            i <= lines.len(),
            page@.step == (0int, 0int),
            page@.title == "The install failed"@,
            page@.help is None,
            page@.note == seq![Seq::<char>::empty()] + all.take(i as int),
        decreases lines.len() - i,
    {
        assert(all.take(i + 1) == all.take(i as int).push(lines@[i as int]@));
        page = page.note(lines[i].as_str());
        assert(page@.note =~= seq![Seq::<char>::empty()] + all.take(i + 1));
        i += 1;
    }
    assert(all.take(i as int) == all);
    page.help("↑↓ move · enter select")
}

/// The lines that a failed dry run prints.
pub open spec fn failed_lines(summary: Seq<Text>) -> Seq<Text> {
    seq![
        Seq::<char>::empty(),
        DANGER@ + BOLD@ + "The install failed."@ + RESET@,
        Seq::<char>::empty(),
    ] + summary.map_values(|line: Text| "  "@ + line)
}

/// The lines that a failed dry run prints.
pub fn print_failed(e: &Failed, log: &Option<String>) -> (out: Vec<String>)
    ensures
        out.deep_view() == failed_lines(summary_lines(e@, log.deep_view())),
{
    let lines = summary(e, log);
    let ghost all = lines.deep_view().map_values(|line: Text| "  "@ + line);
    let mut out: Vec<String> = Vec::new();
    emit(&mut out, String::new());
    emit(&mut out, DANGER.to_owned().concat(BOLD).concat("The install failed.").concat(RESET));
    emit(&mut out, String::new());
    let ghost head = out.deep_view();
    let mut i: usize = 0;
    assert(head + all.take(0) =~= head);
    while i < lines.len()
        invariant
            all == lines.deep_view().map_values(|line: Text| "  "@ + line),
            i <= lines.len(),
            out.deep_view() == head + all.take(i as int),
        decreases lines.len() - i,
    {
        let line = "  ".to_owned().concat(lines[i].as_str());
        assert(all[i as int] == line@);
        assert(all.take(i + 1) == all.take(i as int).push(line@));
        assert((head + all.take(i as int)).push(line@) =~= head + all.take(i + 1));
        emit(&mut out, line);
        i += 1;
    }
    assert(all.take(i as int) == all);
    assert(out.deep_view() =~= failed_lines(lines.deep_view()));
    out
}

/// The choices at the end of a failed install.
pub open spec fn failed_options() -> Seq<OptView> {
    seq![
        OptView::plain("Reboot"@, "the disk may be incomplete or unbootable"@),
        OptView::plain("Exit to a shell"@, "leave the disk exactly as it is"@),
        OptView::plain("Unmount and exit to a shell"@, "best-effort umount of /mnt first"@),
    ]
}

/// The choices at the end of a failed install.
pub fn failed_rows() -> (out: Vec<Opt>)
    ensures
        out.deep_view() == failed_options(),
{
    let mut out: Vec<Opt> = Vec::new();
    out.push(Opt::new("Reboot", "the disk may be incomplete or unbootable"));
    out.push(Opt::new("Exit to a shell", "leave the disk exactly as it is"));
    out.push(Opt::new("Unmount and exit to a shell", "best-effort umount of /mnt first"));
    assert(out.deep_view() =~= failed_options());
    out
}

/// How the program is left.
#[derive(Debug, Clone, Copy, PartialEq, Eq, Structural)]
pub enum Leave {
    Reboot,
    Shell,
    /// Unmount what can be unmounted, then go to a shell.
    UnmountThenShell,
}

/// How the program is left after a choice on the last screen. Leaving that
/// screen without one leads to a shell.
pub open spec fn chosen_exit(failed: bool, choice: Answer<int>) -> Leave {
    match choice {
        Ok(i) => if i == 0 {
            Leave::Reboot
        } else if i == 2 && failed {
            Leave::UnmountThenShell
        } else {
            Leave::Shell
        },
        Err(_) => Leave::Shell,
    }
}

/// How the program is left after a choice on the last screen.
pub fn leave(failed: bool, choice: Answer<usize>) -> (out: Leave)
    ensures
        out == chosen_exit(
            failed,
            match choice {
                Ok(i) => Ok(i as int),
                Err(n) => Err(n),
            },
        ),
{
    match choice {
        Ok(i) => {
            if i == 0 {
                Leave::Reboot
            } else if i == 2 && failed {
                Leave::UnmountThenShell
            } else {
                Leave::Shell
            }
        },
        Err(_) => Leave::Shell,
    }
}

/// The commands that unmount what can be unmounted, and close an encrypted
/// root: it would keep a second run from erasing the disk.
pub open spec fn cleanup(encrypted: bool) -> Seq<Seq<Text>> {
    let unmount = seq!["umount"@, "--recursive"@, "--lazy"@, MNT@];
    if encrypted {
        seq![unmount, seq!["cryptsetup"@, "close"@, LUKS_NAME@]]
    } else {
        seq![unmount]
    }
}

/// The commands that unmount what can be unmounted. This is for a step that
/// failed partway, so it is not known what is mounted; a target that was never
/// mounted just says so.
pub fn unmount_best_effort(encrypted: bool) -> (out: Vec<Vec<String>>)
    ensures
        out.deep_view() == cleanup(encrypted),
{
    let mut unmount: Vec<String> = Vec::new();
    emit(&mut unmount, "umount".to_owned());
    emit(&mut unmount, "--recursive".to_owned());
    emit(&mut unmount, "--lazy".to_owned());
    emit(&mut unmount, MNT.to_owned());
    let mut out: Vec<Vec<String>> = Vec::new();
    out.push(unmount);
    if encrypted {
        let mut close: Vec<String> = Vec::new();
        emit(&mut close, "cryptsetup".to_owned());
        emit(&mut close, "close".to_owned());
        emit(&mut close, LUKS_NAME.to_owned());
        out.push(close);
    }
    assert(out.deep_view() =~~= cleanup(encrypted));
    out
}

/// The exit codes tell a failed build from everything else.
pub proof fn lemma_exit_codes(e: FailedView)
    ensures
        exit_status(e) == 3 || exit_status(e) == 4,
        e.what == KILN_BUILD@ ==> exit_status(e) == 3,
        !text::begins(e.what, KILN_BUILD@) ==> exit_status(e) == 4,
{
    assert(KILN_BUILD@.take(KILN_BUILD@.len() as int) =~= KILN_BUILD@);
}

/// Arguments are taken one after the other: each does what it says to what the
/// others say, help and version win over all that follows them, what is not
/// known is refused by its name, and the last library named counts.
pub proof fn lemma_arguments_one_by_one(rest: Seq<Text>, x: Text, dry_run: bool, root: Text)
    ensures
        parsed(Seq::<Text>::empty(), 0, dry_run, root) == (CommandView::Install {
            dry_run,
            module_root: root,
        }),
        parsed(seq!["-h"@] + rest, 0, dry_run, root) == CommandView::Help,
        parsed(seq!["--help"@] + rest, 0, dry_run, root) == CommandView::Help,
        parsed(seq!["--version"@] + rest, 0, dry_run, root) == CommandView::Version,
        parsed(seq!["--dry-run"@] + rest, 0, dry_run, root) == parsed(rest, 0, true, root),
        parsed(seq!["--module-root"@, x] + rest, 0, dry_run, root) == parsed(rest, 0, dry_run, x),
        parsed(seq!["--module-root"@], 0, dry_run, root) is Wrong,
        x != "-h"@ && x != "--help"@ && x != "--version"@ && x != "--dry-run"@ && x
            != "--module-root"@ ==> parsed(seq![x] + rest, 0, dry_run, root)
            == (CommandView::Wrong { message: "unknown option `"@ + x + "`; try --help"@ }),
{
    reveal_strlit("-h");
    reveal_strlit("--help");
    reveal_strlit("--version");
    reveal_strlit("--dry-run");
    reveal_strlit("--module-root");
    lemma_parsed_from(seq!["--dry-run"@] + rest, 1, true, root);
    assert((seq!["--dry-run"@] + rest).skip(1) =~= rest);
    assert("--dry-run"@.len() == 9 && "--version"@.len() == 9);
    assert("--dry-run"@[2] == 'd' && "--version"@[2] == 'v');
    lemma_parsed_from(seq!["--module-root"@, x] + rest, 2, dry_run, x);
    assert((seq!["--module-root"@, x] + rest).skip(2) =~= rest);
    let one = seq!["--module-root"@];
    assert(one[0] == "--module-root"@);
    assert((seq!["-h"@] + rest)[0] == "-h"@);
    assert((seq!["--help"@] + rest)[0] == "--help"@);
    assert((seq!["--version"@] + rest)[0] == "--version"@);
    assert((seq!["--dry-run"@] + rest)[0] == "--dry-run"@);
    assert((seq!["--module-root"@, x] + rest)[0] == "--module-root"@);
    assert((seq!["--module-root"@, x] + rest)[1] == x);
    assert((seq![x] + rest)[0] == x);
}

proof fn lemma_parsed_from(argv: Seq<Text>, i: int, dry_run: bool, root: Text)
    requires
        0 <= i <= argv.len(),
    ensures
        parsed(argv, i, dry_run, root) == parsed(argv.skip(i), 0, dry_run, root),
{
    lemma_parsed_shift(argv, argv.skip(i), i, 0, dry_run, root);
}

proof fn lemma_parsed_shift(
    argv: Seq<Text>,
    tail: Seq<Text>,
    i: int,
    k: int,
    dry_run: bool,
    root: Text,
)
    requires
        0 <= i <= argv.len(),
        tail == argv.skip(i),
        0 <= k <= tail.len(),
    ensures
        parsed(argv, i + k, dry_run, root) == parsed(tail, k, dry_run, root),
    decreases tail.len() - k,
{
    if k < tail.len() {
        assert(tail[k] == argv[i + k]);
        lemma_parsed_shift(argv, tail, i, k + 1, true, root);
        if k + 1 < tail.len() {
            assert(tail[k + 1] == argv[i + k + 1]);
            lemma_parsed_shift(argv, tail, i, k + 2, dry_run, tail[k + 1]);
        }
    }
}

/// The library is where the environment says, or at its usual place.
pub proof fn lemma_usual_root(dir: Text)
    ensures
        usual_root(Some(dir)) == dir,
        usual_root(None) == "/usr/share/kiln/modules"@,
{
}

/// A duration is told in seconds below a minute, and otherwise in whole minutes
/// and the seconds that are left, always in two digits; together they are the
/// time it took.
pub proof fn lemma_durations(minutes: nat, secs: nat)
    requires
        secs < 60,
    ensures
        duration(secs) == text::decimal(secs) + "s"@,
        minutes > 0 && secs < 10 ==> duration(60 * minutes + secs) == text::decimal(minutes) + "m"@
            + ("0"@ + text::decimal(secs)) + "s"@,
        minutes > 0 && secs >= 10 ==> duration(60 * minutes + secs) == text::decimal(minutes)
            + "m"@ + text::decimal(secs) + "s"@,
{
    let all = 60 * minutes + secs;
    assert(all / 60 == minutes && all % 60 == secs);
}

/// What is said of a failed install holds the failure in one sentence first,
/// every line the command said last, in order, and where the log is or that
/// there is none.
pub proof fn lemma_summary_tells_the_failure(e: FailedView, log: Option<Text>, k: int)
    ensures
        text::occurs(summary_lines(e, log)[0], e.sentence()),
        0 <= k < e.tail.len() ==> text::occurs(summary_lines(e, log)[2 + k], e.tail[k]),
        log matches Some(at) ==> text::occurs(summary_lines(e, log)[3 + e.tail.len() as int], at),
        log is None ==> text::occurs(
            summary_lines(e, log)[3 + e.tail.len() as int],
            "/var/log/terracotta-installer.log"@,
        ),
        failed_page(summary_lines(e, log)).note.skip(1) == summary_lines(e, log),
        0 <= k < summary_lines(e, log).len() ==> failed_lines(summary_lines(e, log))[3 + k] == "  "@
            + summary_lines(e, log)[k],
{
    let all = summary_lines(e, log);
    text::lemma_occurs_between(BOLD@, e.sentence(), RESET@);
    assert(all[0] == BOLD@ + e.sentence() + RESET@);
    if 0 <= k < e.tail.len() {
        text::lemma_occurs_between(DIM@, e.tail[k], RESET@);
        assert(all[2 + k] == DIM@ + e.tail[k] + RESET@);
    }
    let n = 3 + e.tail.len() as int;
    assert(all[n] == log_lines(log)[0]);
    match log {
        Some(at) => {
            text::lemma_occurs_between("Everything that ran is in "@ + BOLD@, at, RESET@ + "."@);
            assert("Everything that ran is in "@ + BOLD@ + at + (RESET@ + "."@) =~= all[n]);
        },
        None => {
            let rest = " could not be opened for writing."@ + RESET@;
            text::lemma_occurs_between(WARN@ + "Nothing was logged: "@, run::LOG@, rest);
            assert(WARN@ + "Nothing was logged: "@ + run::LOG@ + rest =~= all[n]);
        },
    }
    assert(failed_page(all).note.skip(1) =~= all);
}

/// The first choice reboots, the third unmounts first and is offered only after
/// a failure, and everything else, leaving the screen too, leads to a shell.
pub proof fn lemma_last_choices(failed: bool, choice: Answer<int>)
    ensures
        chosen_exit(failed, choice) == Leave::Reboot <==> choice == Ok::<int, crate::keys::Nav>(0),
        chosen_exit(failed, choice) == Leave::UnmountThenShell <==> failed && choice
            == Ok::<int, crate::keys::Nav>(2),
        done_options().len() == 2 && failed_options().len() == 3,
        done_options()[0].label == "Reboot now"@ && failed_options()[0].label == "Reboot"@,
        failed_options()[2].label == "Unmount and exit to a shell"@,
{
}

/// Cleaning up unmounts everything first, whatever is mounted, and closes an
/// encrypted root and only that.
pub proof fn lemma_cleanup(encrypted: bool)
    ensures
        cleanup(encrypted)[0] == seq!["umount"@, "--recursive"@, "--lazy"@, "/mnt"@],
        encrypted ==> cleanup(encrypted).len() == 2 && cleanup(encrypted)[1] == seq![
            "cryptsetup"@,
            "close"@,
            "root"@,
        ],
        !encrypted ==> cleanup(encrypted).len() == 1,
{
}

/// The last page names the disk, the user and the hostname, and tells a dry run
/// from a real one.
pub proof fn lemma_last_page_tells(dry_run: bool, a: AnswersView, secs: nat)
    ensures
        ({
            let page = done_page(dry_run, a, secs);
            let shift: int = if dry_run {
                3
            } else {
                0
            };
            &&& page.title == "Installed"@ <==> !dry_run
            &&& text::occurs(page.note[0], duration(secs))
            &&& text::occurs(page.note[2 + shift], a.disk.path)
            &&& text::occurs(page.note[5 + shift], a.username)
            &&& text::ends(page.note[6 + shift], a.hostname)
        }),
{
    let page = done_page(dry_run, a, secs);
    let shift: int = if dry_run {
        3
    } else {
        0
    };
    reveal_strlit("Installed");
    reveal_strlit("Dry run complete");
    assert("Installed"@.len() != "Dry run complete"@.len());
    text::lemma_occurs_between(DIM@ + "finished in "@, duration(secs), RESET@);
    assert(page.note[0] == DIM@ + "finished in "@ + duration(secs) + RESET@);
    let end = " and set to boot."@ + RESET@;
    if dry_run {
        text::lemma_occurs_between(DIM@ + "Generation 1 would be on "@, a.disk.path, end);
        assert(DIM@ + "Generation 1 would be on "@ + a.disk.path + end =~= page.note[2 + shift]);
    } else {
        text::lemma_occurs_between(OK@ + "Generation 1 is on "@, a.disk.path, end);
        assert(OK@ + "Generation 1 is on "@ + a.disk.path + end =~= page.note[2 + shift]);
    }
    let user = "  "@ + DIM@ + "first user"@ + RESET@ + "     "@;
    text::lemma_occurs_between(user, a.username, " (wheel)"@);
    assert(page.note[5 + shift] == user + a.username + " (wheel)"@);
    let host = page.note[6 + shift];
    assert(host == "  "@ + DIM@ + "hostname"@ + RESET@ + "       "@ + a.hostname);
    assert(host.subrange(host.len() - a.hostname.len(), host.len() as int) =~= a.hostname);
}

/// What is wrong is said as it is, after the word for it.
pub proof fn lemma_errors_are_said(message: Text)
    ensures
        text::ends(error_line(message), message),
        text::occurs(error_line(message), "error"@),
{
    let line = error_line(message);
    assert(line.subrange(line.len() - message.len(), line.len() as int) =~= message);
    text::lemma_occurs_between(DANGER@, "error"@, RESET@ + " "@ + message);
    assert(line =~= DANGER@ + "error"@ + (RESET@ + " "@ + message));
}

} // verus!
