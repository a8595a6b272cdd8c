//! Running commands, and being able to say what happened afterwards.
//!
//! Every command the installer runs goes through here, and every line either
//! stream produces is written to the log and offered to the screen; what is only
//! asked, and its answer, is logged and not shown. Starting
//! the process and reading from it are the caller's; what is logged, what is
//! shown, whether anything is started at all and what a result means are
//! decided here.

use vstd::prelude::*;

use crate::text;
use crate::text::{bytes_in, emit, join, lines_of, number, same, Text};

verus! {

/// What went wrong with a command or a file.
#[derive(Debug)]
pub struct Failed {
    pub what: String,
    pub code: Option<i32>,
    /// The process died on a signal rather than exiting. Distinguished from
    /// "there was no process" because the two read identically as
    /// `code: None` and mean very different things to whoever is debugging.
    pub signal: bool,
    /// The last few lines the command produced, so the failure screen can say
    /// something better than "exit status 1".
    pub tail: Vec<String>,
}

/// What a `Failed` holds, as contracts see it.
#[verifier::ext_equal]
pub struct FailedView {
    pub what: Text,
    pub code: Option<i32>,
    pub signal: bool,
    pub tail: Seq<Text>,
}

impl View for Failed {
    type V = FailedView;

    open spec fn view(&self) -> FailedView {
        FailedView {
            what: self.what@,
            code: self.code,
            signal: self.signal,
            tail: self.tail.deep_view(),
        }
    }
}

/// A whole number in decimal, with a minus sign when it is negative.
pub open spec fn signed(n: int) -> Text {
    if n < 0 {
        "-"@ + text::decimal((-n) as nat)
    } else {
        text::decimal(n as nat)
    }
}

/// An exit code in decimal.
fn exit_number(n: i32) -> (out: String)
    ensures
        out@ == signed(n as int),
{
    let wide: i64 = n as i64;
    if wide < 0 {
        "-".to_owned().concat(number((-wide) as u64).as_str())
    } else {
        number(wide as u64)
    }
}

impl FailedView {
    /// The failure in one sentence.
    pub open spec fn sentence(self) -> Text {
        match (self.code, self.signal) {
            (Some(c), _) => self.what + " exited "@ + signed(c as int),
            (None, true) => self.what + " was killed by a signal"@,
            (None, false) => self.what + " failed"@,
        }
    }
}

impl Failed {
    /// The failure in one sentence.
    pub fn to_string(&self) -> (out: String)
        ensures
            out@ == self@.sentence(),
    {
        match (self.code, self.signal) {
            (Some(c), _) => self.what.clone().concat(" exited ").concat(exit_number(c).as_str()),
            (None, true) => self.what.clone().concat(" was killed by a signal"),
            (None, false) => self.what.clone().concat(" failed"),
        }
    }
}

/// What a step of the install came to.
pub type Done = Result<(), Failed>;

/// Where a failed install goes to be read. On a live ISO this is tmpfs, so the
/// last thing the installer prints is a suggestion to copy it somewhere.
pub const LOG: &'static str = "/var/log/terracotta-installer.log";

/// How many of a command's last lines are kept for the failure screen.
pub const KEPT: usize = 20;

/// Lines for the log and lines for the screen.
pub struct Report {
    pub log: Vec<String>,
    pub say: Vec<String>,
}

/// What a `Report` holds, as contracts see it.
#[verifier::ext_equal]
pub struct ReportView {
    pub log: Seq<Text>,
    pub say: Seq<Text>,
}

impl View for Report {
    type V = ReportView;

    open spec fn view(&self) -> ReportView {
        ReportView { log: self.log.deep_view(), say: self.say.deep_view() }
    }
}

/// The commands that only ask questions, and therefore run even when nothing
/// may be changed. The list is short and explicit on purpose: the failure mode
/// of getting it wrong is a "dry" run that partitions a disk.
pub open spec fn only_asks(argv: Seq<Text>) -> bool {
    argv.len() > 0 && (argv[0] == "lsblk"@ || argv[0] == "blkid"@ || argv[0] == "findmnt"@
        || argv[0] == "localectl"@)
}

/// Whether a command only asks questions.
pub fn read_only(argv: &[String]) -> (r: bool)
    ensures
        r == only_asks(argv.deep_view()),
{
    if argv.len() == 0 {
        return false;
    }
    assert(argv.deep_view()[0] == argv@[0]@);
    let program = argv[0].as_str();
    same(program, "lsblk") || same(program, "blkid") || same(program, "findmnt") || same(
        program,
        "localectl",
    )
}

/// How a command is shown. Of what is piped to it only the number of bytes is.
pub open spec fn shown_command(argv: Seq<Text>, piped: Option<nat>) -> Text {
    match piped {
        Some(n) => text::joined(argv, " "@) + " <<< ("@ + text::decimal(n)
            + " bytes, not logged)"@,
        None => text::joined(argv, " "@),
    }
}

/// The number of bytes that are piped to a command, if any are.
pub open spec fn piped_bytes(stdin: Option<Text>) -> Option<nat> {
    match stdin {
        Some(t) => Some(text::byte_len(t)),
        None => None,
    }
}

/// How a command is shown.
fn show_command(argv: &[String], stdin: &Option<String>) -> (out: String)
    ensures
        out@ == shown_command(argv.deep_view(), piped_bytes(stdin.deep_view())),
{
    match stdin {
        Some(t) => join(argv, " ").concat(" <<< (").concat(
            number(bytes_in(t.as_str()) as u64).as_str(),
        ).concat(" bytes, not logged)"),
        None => join(argv, " "),
    }
}

/// A list with one more line, without its first if that makes it too long.
pub open spec fn kept_with(tail: Seq<Text>, line: Text) -> Seq<Text> {
    let longer = tail.push(line);
    if longer.len() > KEPT {
        longer.drop_first()
    } else {
        longer
    }
}

/// What is kept of a command's lines.
pub open spec fn kept_of(lines: Seq<Text>) -> Seq<Text>
    decreases lines.len(),
{
    if lines.len() == 0 {
        Seq::empty()
    } else {
        kept_with(kept_of(lines.drop_last()), lines.last())
    }
}

/// What is kept of a command's lines is its last twenty, or all of them if
/// there are fewer.
pub proof fn lemma_last_lines_are_kept(lines: Seq<Text>)
    ensures
        lines.len() <= KEPT ==> kept_of(lines) == lines,
        lines.len() > KEPT ==> kept_of(lines) == lines.skip(lines.len() - KEPT),
    decreases lines.len(),
{
    if lines.len() > 0 {
        lemma_last_lines_are_kept(lines.drop_last());
        assert(lines.drop_last().push(lines.last()) == lines);
        if lines.len() - 1 > KEPT {
            assert(kept_of(lines.drop_last()).push(lines.last()).drop_first() == lines.skip(
                lines.len() - KEPT,
            ));
        } else if lines.len() > KEPT {
            assert(lines.drop_first() == lines.skip(lines.len() - KEPT));
        }
    } else {
        assert(kept_of(lines) == lines);
    }
}

/// A command on its way: what it is, whether it is really started, and the
/// last lines it has produced.
pub struct Execution {
    pub what: String,
    pub argv: Vec<String>,
    pub cwd: Option<String>,
    pub stdin: Option<String>,
    /// Whether a process is started for it.
    pub executes: bool,
    pub tail: Vec<String>,
}

/// What an `Execution` holds, as contracts see it.
#[verifier::ext_equal]
pub struct ExecutionView {
    pub what: Text,
    pub argv: Seq<Text>,
    pub cwd: Option<Text>,
    pub stdin: Option<Text>,
    pub executes: bool,
    pub tail: Seq<Text>,
}

impl View for Execution {
    type V = ExecutionView;

    open spec fn view(&self) -> ExecutionView {
        ExecutionView {
            what: self.what@,
            argv: self.argv.deep_view(),
            cwd: self.cwd.deep_view(),
            stdin: self.stdin.deep_view(),
            executes: self.executes,
            tail: self.tail.deep_view(),
        }
    }
}

/// How a started process came to its end.
pub enum Ended {
    /// It exited, or was killed when there is no code. `status` is how the
    /// system words it.
    Exited { code: Option<i32>, status: String },
    /// Waiting for it failed.
    Lost { error: String },
}

impl ExecutionView {
    /// The command as it is shown.
    pub open spec fn shown(self) -> Text {
        "$ "@ + shown_command(self.argv, piped_bytes(self.stdin))
    }

    /// What is logged and said before the process is started.
    pub open spec fn opening(self) -> ReportView {
        ReportView {
            log: seq![self.shown()],
            say: if self.executes {
                seq![self.shown()]
            } else {
                seq![self.shown(), "  (dry run — not executed)"@]
            },
        }
    }

    /// What a command comes to without being started: success, when it is not to
    /// be executed. `None` when only the process can tell.
    pub open spec fn skipped(self) -> Option<Option<FailedView>> {
        if self.executes {
            None
        } else {
            Some(None)
        }
    }

    /// The failure of a process that could not be started.
    pub open spec fn not_started(self, error: Text) -> FailedView {
        FailedView {
            what: self.what,
            code: None,
            signal: false,
            tail: seq!["cannot run "@ + self.argv[0] + ": "@ + error],
        }
    }

    /// What the end of the process means.
    pub open spec fn result(self, ended: Ended) -> Option<FailedView> {
        match ended {
            Ended::Exited { code, status } => if code == Some(0i32) {
                None
            } else {
                Some(
                    FailedView {
                        what: self.what,
                        code,
                        signal: code is None,
                        tail: self.tail,
                    },
                )
            },
            Ended::Lost { error } => Some(
                FailedView { what: self.what, code: None, signal: false, tail: seq![error@] },
            ),
        }
    }

    /// What is logged at the end of the process.
    pub open spec fn closing(self, ended: Ended) -> Seq<Text> {
        match ended {
            Ended::Exited { code, status } => if code == Some(0i32) {
                Seq::empty()
            } else {
                seq!["!! "@ + self.what + " exited "@ + status@]
            },
            Ended::Lost { error } => Seq::empty(),
        }
    }
}

/// What a `Done` came to: nothing, or the failure.
pub open spec fn failure(done: Done) -> Option<FailedView> {
    match done {
        Ok(_) => None,
        Err(e) => Some(e@),
    }
}

/// What was skipped, as contracts see it.
pub open spec fn skipped_view(done: Option<Done>) -> Option<Option<FailedView>> {
    match done {
        Some(d) => Some(failure(d)),
        None => None,
    }
}

impl Execution {
    /// What to log and say before the process is started.
    pub fn opening(&self) -> (out: Report)
        ensures
            out@ == self@.opening(),
    {
        let shown = "$ ".to_owned().concat(
            show_command(self.argv.as_slice(), &self.stdin).as_str(),
        );
        let mut log: Vec<String> = Vec::new();
        let mut say: Vec<String> = Vec::new();
        emit(&mut log, shown.clone());
        emit(&mut say, shown);
        if !self.executes {
            emit(&mut say, "  (dry run — not executed)".to_owned());
        }
        let out = Report { log, say };
        assert(out@ =~= self@.opening());
        out
    }

    /// What the command comes to without being started: success, when it is not
    /// to be executed. `None` when only the process can tell.
    pub fn skipped(&self) -> (out: Option<Done>)
        ensures
            skipped_view(out) == self@.skipped(),
    {
        if self.executes {
            None
        } else {
            Some(Ok(()))
        }
    }

    /// The process could not be started: what to log and say, and the failure.
    pub fn not_started(&self, error: &str) -> (out: (Report, Failed))
        requires
            self.argv@.len() > 0,
        ensures
            out.1@ == self@.not_started(error@),
            out.0@.log == out.1@.tail,
            out.0@.say == out.1@.tail,
    {
        let line = "cannot run ".to_owned().concat(self.argv[0].as_str()).concat(": ").concat(
            error,
        );
        let mut log: Vec<String> = Vec::new();
        let mut say: Vec<String> = Vec::new();
        let mut tail: Vec<String> = Vec::new();
        emit(&mut log, line.clone());
        emit(&mut say, line.clone());
        emit(&mut tail, line);
        assert(self.argv.deep_view()[0] == self.argv@[0]@);
        let e = Failed { what: self.what.clone(), code: None, signal: false, tail };
        assert(e@ =~= self@.not_started(error@));
        (Report { log, say }, e)
    }

    /// The process produced a line: it is logged and said as it is.
    pub fn line(&mut self, line: String) -> (out: Report)
        ensures
            final(self)@ == (ExecutionView {
                tail: kept_with(old(self)@.tail, line@),
                ..old(self)@
            }),
            out@ == (ReportView { log: seq![line@], say: seq![line@] }),
    {
        let mut log: Vec<String> = Vec::new();
        let mut say: Vec<String> = Vec::new();
        emit(&mut log, line.clone());
        emit(&mut say, line.clone());
        emit(&mut self.tail, line);
        if self.tail.len() > KEPT {
            let ghost longer = self.tail.deep_view();
            self.tail.remove(0);
            assert(self.tail.deep_view() == longer.drop_first());
        }
        let out = Report { log, say };
        assert(out@ =~= (ReportView { log: seq![line@], say: seq![line@] }));
        out
    }

    /// The process came to its end: what to log, and the result.
    pub fn ended(self, ended: Ended) -> (out: (Vec<String>, Done))
        ensures
            out.0.deep_view() == self@.closing(ended),
            failure(out.1) == self@.result(ended),
    {
        let ghost view = self@;
        let mut log: Vec<String> = Vec::new();
        match ended {
            Ended::Exited { code, status } => {
                if code.is_some() && code.unwrap() == 0 {
                    assert(log.deep_view() =~= Seq::empty());
                    return (log, Ok(()));
                }
                emit(
                    &mut log,
                    "!! ".to_owned().concat(self.what.as_str()).concat(" exited ").concat(
                        status.as_str(),
                    ),
                );
                assert(log.deep_view() =~= view.closing(ended));
                (
                    log,
                    Err(
                        Failed {
                            what: self.what,
                            code,
                            signal: code.is_none(),
                            tail: self.tail,
                        },
                    ),
                )
            },
            Ended::Lost { error } => {
                assert(log.deep_view() =~= Seq::empty());
                let mut tail: Vec<String> = Vec::new();
                emit(&mut tail, error);
                assert(tail.deep_view() =~= seq![error@]);
                (log, Err(Failed { what: self.what, code: None, signal: false, tail }))
            },
        }
    }
}

/// What asking the system came to.
pub enum Captured {
    /// The process ended; there is no code when it was killed.
    Exited { code: Option<i32>, stdout: String, stderr: String },
    /// It could not be run.
    NotRun { error: String },
}

/// What the answer of a question means.
pub open spec fn answer(argv: Seq<Text>, got: Captured) -> Result<Text, FailedView> {
    match got {
        Captured::Exited { code, stdout, stderr } => if code == Some(0i32) {
            Ok(stdout@)
        } else {
            Err(
                FailedView {
                    what: text::joined(argv, " "@),
                    code,
                    signal: code is None,
                    tail: text::text_lines(stderr@),
                },
            )
        },
        Captured::NotRun { error } => Err(
            FailedView {
                what: text::joined(argv, " "@),
                code: None,
                signal: false,
                tail: seq![error@],
            },
        ),
    }
}

/// What is logged before a question is asked. Nothing is said about it.
pub open spec fn asking(argv: Seq<Text>) -> ReportView {
    ReportView { log: seq!["$ "@ + text::joined(argv, " "@)], say: Seq::empty() }
}

/// What is logged of the answer to a question: every line the command printed,
/// what it printed in answer before what it complained of, and then its failure
/// if it failed. Nothing is said about it.
pub open spec fn answering(argv: Seq<Text>, got: Captured) -> ReportView {
    ReportView {
        log: match got {
            Captured::Exited { code, stdout, stderr } => text::text_lines(stdout@)
                + text::text_lines(stderr@) + match answer(argv, got) {
                Ok(_) => Seq::<Text>::empty(),
                Err(e) => seq!["!! "@ + e.sentence()],
            },
            Captured::NotRun { error } => seq!["cannot run "@ + argv[0] + ": "@ + error@],
        },
        say: Seq::empty(),
    }
}

/// A result with its text and its failure as contracts see them.
pub open spec fn answer_view(r: Result<String, Failed>) -> Result<Text, FailedView> {
    match r {
        Ok(t) => Ok(t@),
        Err(e) => Err(e@),
    }
}

/// A file on its way: what is logged and said about it, and whether it is
/// really written.
pub struct Writing {
    pub at: String,
    pub content: String,
    pub executes: bool,
}

/// What a `Writing` holds, as contracts see it.
#[verifier::ext_equal]
pub struct WritingView {
    pub at: Text,
    pub content: Text,
    pub executes: bool,
}

impl View for Writing {
    type V = WritingView;

    open spec fn view(&self) -> WritingView {
        WritingView { at: self.at@, content: self.content@, executes: self.executes }
    }
}

impl WritingView {
    /// What is logged and said before the file is written.
    pub open spec fn opening(self) -> ReportView {
        ReportView {
            log: seq!["--- "@ + self.at + " ---\n"@ + self.content + "--- end ---"@],
            say: if self.executes {
                seq!["write "@ + self.at]
            } else {
                seq!["write "@ + self.at, "  (dry run — not written)"@]
            },
        }
    }

    /// What a file comes to without being written: success, when it is not to be
    /// written. `None` when only writing it can tell.
    pub open spec fn skipped(self) -> Option<Option<FailedView>> {
        if self.executes {
            None
        } else {
            Some(None)
        }
    }

    /// The failure of a file that could not be written.
    pub open spec fn not_written(self, error: Text) -> FailedView {
        FailedView { what: "writing "@ + self.at, code: None, signal: false, tail: seq![error] }
    }
}

impl Writing {
    /// What to log and say before the file is written.
    pub fn opening(&self) -> (out: Report)
        ensures
            out@ == self@.opening(),
    {
        let mut log: Vec<String> = Vec::new();
        let mut say: Vec<String> = Vec::new();
        emit(
            &mut log,
            "--- ".to_owned().concat(self.at.as_str()).concat(" ---\n").concat(
                self.content.as_str(),
            ).concat("--- end ---"),
        );
        emit(&mut say, "write ".to_owned().concat(self.at.as_str()));
        if !self.executes {
            emit(&mut say, "  (dry run — not written)".to_owned());
        }
        let out = Report { log, say };
        assert(out@ =~= self@.opening());
        out
    }

    /// What the file comes to without being written: success, when it is not to
    /// be written. `None` when only writing it can tell.
    pub fn skipped(&self) -> (out: Option<Done>)
        ensures
            skipped_view(out) == self@.skipped(),
    {
        if self.executes {
            None
        } else {
            Some(Ok(()))
        }
    }

    /// The file could not be written.
    pub fn not_written(&self, error: &str) -> (out: Failed)
        ensures
            out@ == self@.not_written(error@),
    {
        let mut tail: Vec<String> = Vec::new();
        emit(&mut tail, error.to_owned());
        let out = Failed {
            what: "writing ".to_owned().concat(self.at.as_str()),
            code: None,
            signal: false,
            tail,
        };
        assert(out@ =~= self@.not_written(error@));
        out
    }
}

/// How commands are run: with a log or without one, for real or not.
pub struct Runner {
    /// Whether the log could be opened.
    pub logging: bool,
    /// Print the plan, touch nothing. Read commands still run: the point is to
    /// be able to see the exact `sgdisk` line before it is real.
    pub dry_run: bool,
}

/// The first line of a run in the log.
pub open spec fn log_banner(stamp: nat) -> Text {
    "\n=== terracotta-installer "@ + text::decimal(stamp) + " ==="@
}

/// A command as it stands before it has produced anything. It is started unless
/// nothing may be changed and it does more than ask.
pub open spec fn started(
    dry_run: bool,
    what: Text,
    argv: Seq<Text>,
    cwd: Option<Text>,
    stdin: Option<Text>,
) -> ExecutionView {
    ExecutionView {
        what,
        argv,
        cwd,
        stdin,
        executes: !dry_run || only_asks(argv),
        tail: Seq::empty(),
    }
}

impl Runner {
    /// A runner, given whether the log could be opened.
    pub fn new(dry_run: bool, logging: bool) -> (out: Runner)
        ensures
            out.dry_run == dry_run,
            out.logging == logging,
    {
        Runner { logging, dry_run }
    }

    /// The first line of a run in the log. A timestamp in the log wants to be
    /// sortable; a human reading it has `date -d @...`.
    pub fn banner(stamp: u64) -> (out: String)
        ensures
            out@ == log_banner(stamp as nat),
    {
        "\n=== terracotta-installer ".to_owned().concat(number(stamp).as_str()).concat(" ===")
    }

    /// A command, to be run as it stands. `what` is what the user sees if it
    /// fails.
    pub fn run(&self, what: &str, argv: &[String]) -> (out: Execution)
        requires
            self.dry_run || argv@.len() > 0,
        ensures
            out@ == started(self.dry_run, what@, argv.deep_view(), None, None),
    {
        self.exec(what, argv, None, None)
    }

    /// A command that `stdin` is written to.
    ///
    /// It exists because a password on a command line is visible in `ps` to
    /// every process on the machine for as long as the call takes. What goes in
    /// on stdin is never logged: the log records that something was piped and
    /// how many bytes, and nothing else.
    pub fn run_stdin(&self, what: &str, argv: &[String], stdin: &str) -> (out: Execution)
        requires
            self.dry_run || argv@.len() > 0,
        ensures
            out@ == started(self.dry_run, what@, argv.deep_view(), None, Some(stdin@)),
    {
        self.exec(what, argv, None, Some(stdin.to_owned()))
    }

    /// A command with a working directory.
    pub fn run_in(&self, what: &str, argv: &[String], cwd: Option<String>) -> (out: Execution)
        requires
            self.dry_run || argv@.len() > 0,
        ensures
            out@ == started(self.dry_run, what@, argv.deep_view(), cwd.deep_view(), None),
    {
        self.exec(what, argv, cwd, None)
    }

    /// A command, with or without a working directory and something to write to it.
    pub fn exec(
        &self,
        what: &str,
        argv: &[String],
        cwd: Option<String>,
        stdin: Option<String>,
    ) -> (out: Execution)
        requires
            self.dry_run || argv@.len() > 0,
        ensures
            out@ == started(self.dry_run, what@, argv.deep_view(), cwd.deep_view(), stdin.deep_view()),
            out.executes ==> out.argv@.len() > 0,
    {
        let mut copy: Vec<String> = Vec::new();
        let mut i: usize = 0;
        while i < argv.len()
            invariant
                i <= argv.len(),
                copy@.len() == i,
                forall|j: int| 0 <= j < i ==> copy@[j] == argv@[j],
            decreases argv.len() - i,
        {
            copy.push(argv[i].clone());
            i += 1;
        }
        assert(copy.deep_view() =~= argv.deep_view());
        let executes: bool = !self.dry_run || read_only(argv);
        let out = Execution {
            what: what.to_owned(),
            argv: copy,
            cwd,
            stdin,
            executes,
            tail: Vec::new(),
        };
        assert(out.tail.deep_view() =~= Seq::empty());
        out
    }

    /// What to log before a question is asked.
    pub fn ask(&self, argv: &[String]) -> (out: Report)
        ensures
            out@ == asking(argv.deep_view()),
    {
        let mut log: Vec<String> = Vec::new();
        emit(&mut log, "$ ".to_owned().concat(join(argv, " ").as_str()));
        let out = Report { log, say: Vec::new() };
        assert(out@ =~= asking(argv.deep_view()));
        out
    }

    /// What to log of the answer to a question.
    pub fn heard(&self, argv: &[String], got: &Captured) -> (out: Report)
        requires
            argv@.len() > 0,
        ensures
            out@ == answering(argv.deep_view(), *got),
    {
        let log = match got {
            Captured::Exited { code, stdout, stderr } => {
                let mut lines = lines_of(stdout.as_str());
                let mut complaints = lines_of(stderr.as_str());
                let ghost first = lines.deep_view();
                let ghost second = complaints.deep_view();
                lines.append(&mut complaints);
                assert(lines.deep_view() =~= first + second);
                if code.is_none() || code.unwrap() != 0 {
                    let e = Failed {
                        what: join(argv, " "),
                        code: *code,
                        signal: code.is_none(),
                        tail: lines_of(stderr.as_str()),
                    };
                    emit(&mut lines, "!! ".to_owned().concat(e.to_string().as_str()));
                }
                lines
            },
            Captured::NotRun { error } => {
                assert(argv.deep_view()[0] == argv@[0]@);
                let mut lines: Vec<String> = Vec::new();
                emit(
                    &mut lines,
                    "cannot run ".to_owned().concat(argv[0].as_str()).concat(": ").concat(
                        error.as_str(),
                    ),
                );
                lines
            },
        };
        let out = Report { log, say: Vec::new() };
        assert(out@ =~= answering(argv.deep_view(), *got));
        out
    }

    /// What the answer of a question means. The questions the installer asks
    /// the system, of `blkid`, `lsblk` and `localectl`, are asked under a dry
    /// run too: they change nothing, and the plan is wrong without their
    /// answers.
    pub fn capture(&self, argv: &[String], got: Captured) -> (out: Result<String, Failed>)
        ensures
            answer_view(out) == answer(argv.deep_view(), got),
    {
        match got {
            Captured::Exited { code, stdout, stderr } => {
                if code.is_some() && code.unwrap() == 0 {
                    return Ok(stdout);
                }
                Err(
                    Failed {
                        what: join(argv, " "),
                        code,
                        signal: code.is_none(),
                        tail: lines_of(stderr.as_str()),
                    },
                )
            },
            Captured::NotRun { error } => {
                let mut tail: Vec<String> = Vec::new();
                emit(&mut tail, error);
                assert(tail.deep_view() =~= seq![error@]);
                Err(Failed { what: join(argv, " "), code: None, signal: false, tail })
            },
        }
    }

    /// A file to be written, logging what goes into it. Under a dry run the
    /// content is logged and the file is not written, which is how you check a
    /// generated `system.toml` without a disk.
    pub fn write(&self, at: &str, content: &str) -> (out: Writing)
        ensures
            out@ == (WritingView { at: at@, content: content@, executes: !self.dry_run }),
    {
        Writing { at: at.to_owned(), content: content.to_owned(), executes: !self.dry_run }
    }

    /// Where the log is, if there is one.
    pub fn log_path(&self) -> (out: Option<String>)
        ensures
            out.deep_view() == (if self.logging {
                Some(LOG@)
            } else {
                None
            }),
    {
        if self.logging {
            Some(LOG.to_owned())
        } else {
            None
        }
    }
}

/// Under a dry run a process is started for nothing but a question.
pub proof fn lemma_dry_run_only_asks(
    what: Text,
    argv: Seq<Text>,
    cwd: Option<Text>,
    stdin: Option<Text>,
)
    ensures
        started(true, what, argv, cwd, stdin).executes ==> only_asks(argv),
{
}

/// What is piped to a command shows in nothing that is logged or said before
/// it runs, but for its number of bytes.
pub proof fn lemma_stdin_is_not_shown(a: ExecutionView, b: ExecutionView)
    requires
        a == (ExecutionView { stdin: a.stdin, ..b }),
        piped_bytes(a.stdin) == piped_bytes(b.stdin),
    ensures
        a.opening() == b.opening(),
{
}

/// A command that does more than ask comes to success under a dry run, without
/// a process: it is logged, and said together with the remark that it is not
/// executed. What is piped to it shows only as a number of bytes.
pub proof fn lemma_dry_run_succeeds(
    what: Text,
    argv: Seq<Text>,
    cwd: Option<Text>,
    stdin: Option<Text>,
)
    requires
        !only_asks(argv),
    ensures
        ({
            let x = started(true, what, argv, cwd, stdin);
            let shown = "$ "@ + shown_command(argv, piped_bytes(stdin));
            &&& !x.executes
            &&& x.skipped() == Some(None::<FailedView>)
            &&& x.opening().log == seq![shown]
            &&& x.opening().say == seq![shown, "  (dry run — not executed)"@]
        }),
{
}

/// Nothing is silent: a command is in the log before it runs, whether it is
/// executed or only asks, and every line it prints is in the log after.
pub proof fn lemma_nothing_is_silent(x: ExecutionView, argv: Seq<Text>, got: Captured, line: Text)
    requires
        got is Exited,
        text::text_lines(got->stdout@).contains(line) || text::text_lines(got->stderr@).contains(
            line,
        ),
    ensures
        x.opening().log == seq![x.shown()],
        asking(argv).log == seq!["$ "@ + shown_command(argv, None)],
        answering(argv, got).log.contains(line),
{
    let out = text::text_lines(got->stdout@);
    let err = text::text_lines(got->stderr@);
    let log = answering(argv, got).log;
    if out.contains(line) {
        let k = choose|k: int| 0 <= k < out.len() && out[k] == line;
        assert(log[k] == line);
    } else {
        let k = choose|k: int| 0 <= k < err.len() && err[k] == line;
        assert(log[out.len() + k] == line);
    }
}

/// A command has succeeded exactly when its process exited with code 0. Every
/// other end is a failure of that command, with the very code it exited with,
/// and the lines it said last; a process that died without a code died on a
/// signal.
pub proof fn lemma_success_is_code_zero(x: ExecutionView, ended: Ended)
    ensures
        x.result(ended) is None <==> (ended matches Ended::Exited { code, status } && code == Some(
            0i32,
        )),
        x.result(ended) matches Some(e) ==> e.what == x.what,
        ended matches Ended::Exited { code, status } ==> (x.result(ended) matches Some(e) ==> e.code
            == code && e.tail == x.tail && (e.signal <==> code is None)),
        ended matches Ended::Lost { error } ==> (x.result(ended) matches Some(e) && e.code is None
            && !e.signal && e.tail == seq![error@]),
        x.closing(ended).len() > 0 <==> (ended matches Ended::Exited { code, status } && code
            != Some(0i32)),
        x.closing(ended).len() > 0 ==> (ended matches Ended::Exited { code, status }
            && x.closing(ended) == seq!["!! "@ + x.what + " exited "@ + status@]),
{
}

/// A question is answered exactly when its process exited with code 0, and the
/// answer is all that it printed. Otherwise the failure names the whole command
/// and keeps every line of complaint.
pub proof fn lemma_answers_need_code_zero(argv: Seq<Text>, got: Captured)
    ensures
        answer(argv, got) is Ok <==> (got matches Captured::Exited { code, stdout, stderr } && code
            == Some(0i32)),
        answer(argv, got) matches Ok(t) ==> (got matches Captured::Exited { code, stdout, stderr }
            && t == stdout@),
        answer(argv, got) matches Err(e) ==> e.what == text::joined(argv, " "@),
        got matches Captured::Exited { code, stdout, stderr } ==> (answer(argv, got) matches Err(e)
            ==> e.code == code && (e.signal <==> code is None) && e.tail == text::text_lines(
            stderr@,
        )),
        got matches Captured::NotRun { error } ==> (answer(argv, got) matches Err(e) && e.code is None
            && !e.signal && e.tail == seq![error@]),
{
}

/// Only four programs count as asking. Everything is started in a real run, and
/// in a dry one only those.
pub proof fn lemma_what_is_started(
    dry_run: bool,
    what: Text,
    argv: Seq<Text>,
    cwd: Option<Text>,
    stdin: Option<Text>,
)
    ensures
        ({
            let x = started(dry_run, what, argv, cwd, stdin);
            let asks = argv.len() > 0 && seq![
                "lsblk"@,
                "blkid"@,
                "findmnt"@,
                "localectl"@,
            ].contains(argv[0]);
            &&& x.executes <==> !dry_run || asks
            &&& x.skipped() is Some <==> dry_run && !asks
            &&& x.skipped() is Some ==> x.skipped() == Some(None::<FailedView>)
            &&& x.what == what && x.argv == argv && x.cwd == cwd && x.stdin == stdin
            &&& x.tail.len() == 0
        }),
{
    let four = seq!["lsblk"@, "blkid"@, "findmnt"@, "localectl"@];
    if argv.len() > 0 {
        if argv[0] == "lsblk"@ {
            assert(four[0] == argv[0]);
        } else if argv[0] == "blkid"@ {
            assert(four[1] == argv[0]);
        } else if argv[0] == "findmnt"@ {
            assert(four[2] == argv[0]);
        } else if argv[0] == "localectl"@ {
            assert(four[3] == argv[0]);
        }
    }
}

/// A command is logged and said with all of its words, before anything else of
/// it; what is piped to it is told as its number of bytes.
pub proof fn lemma_commands_are_shown_whole(x: ExecutionView)
    ensures
        x.opening().log.len() == 1,
        x.opening().say[0] == x.opening().log[0],
        x.opening().say.len() == (if x.executes {
            1int
        } else {
            2int
        }),
        x.stdin is None ==> x.opening().log[0] == "$ "@ + text::joined(x.argv, " "@),
        x.stdin matches Some(t) ==> x.opening().log[0] == "$ "@ + (text::joined(x.argv, " "@)
            + " <<< ("@ + text::decimal(text::byte_len(t)) + " bytes, not logged)"@),
{
}

/// A failure says what failed and how: with its exit code when there is one, as
/// killed when a signal ended it, and as failed otherwise.
pub proof fn lemma_sentences(e: FailedView)
    ensures
        text::begins(e.sentence(), e.what),
        e.code matches Some(c) ==> e.sentence() == e.what + " exited "@ + (if c < 0 {
            "-"@ + text::decimal((-c) as nat)
        } else {
            text::decimal(c as nat)
        }),
        e.code is None && e.signal ==> e.sentence() == e.what + " was killed by a signal"@,
        e.code is None && !e.signal ==> e.sentence() == e.what + " failed"@,
{
    assert(e.sentence().subrange(0, e.what.len() as int) =~= e.what);
}

/// What is kept of a command while it prints are its last lines, all of them up
/// to twenty, oldest first, and the newest is always there.
pub proof fn lemma_newest_line_is_kept(tail: Seq<Text>, line: Text)
    requires
        tail.len() <= 20,
    ensures
        kept_with(tail, line).len() <= 20,
        kept_with(tail, line).last() == line,
        tail.len() < 20 ==> kept_with(tail, line) == tail.push(line),
        tail.len() == 20 ==> kept_with(tail, line) == tail.skip(1).push(line),
{
    assert(tail.push(line).drop_first() =~= tail.skip(1).push(line) || tail.len() < 20);
}

/// A file is logged whole before it is written, and written exactly in a real
/// run; its failure names it.
pub proof fn lemma_files_are_logged_whole(w: WritingView, error: Text)
    ensures
        w.opening().log == seq!["--- "@ + w.at + " ---\n"@ + w.content + "--- end ---"@],
        w.opening().say[0] == "write "@ + w.at,
        w.opening().say.len() == (if w.executes {
            1int
        } else {
            2int
        }),
        w.skipped() is Some <==> !w.executes,
        w.skipped() is Some ==> w.skipped() == Some(None::<FailedView>),
        w.not_written(error).what == "writing "@ + w.at,
        w.not_written(error).tail == seq![error],
        w.not_written(error).code is None && !w.not_written(error).signal,
{
}

/// A process that cannot be started is a failure of its command, and the reason
/// with the program's name is kept.
pub proof fn lemma_not_started_is_told(x: ExecutionView, error: Text)
    requires
        x.argv.len() > 0,
    ensures
        x.not_started(error).what == x.what,
        x.not_started(error).code is None && !x.not_started(error).signal,
        x.not_started(error).tail == seq!["cannot run "@ + x.argv[0] + ": "@ + error],
{
}

/// Each run begins in the log with a line of its own that tells when.
pub proof fn lemma_runs_are_told_apart(stamp: nat)
    ensures
        ({
            let front = "\n=== terracotta-installer "@;
            let said = log_banner(stamp);
            &&& said.take(front.len() as int) == front
            &&& said.skip(front.len() as int) == text::decimal(stamp) + " ==="@
        }),
{
    let front = "\n=== terracotta-installer "@;
    let said = log_banner(stamp);
    assert(said.take(front.len() as int) =~= front);
    assert(said.skip(front.len() as int) =~= text::decimal(stamp) + " ==="@);
}

} // verus!
