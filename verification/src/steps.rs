//! The install itself: eleven steps, in a fixed order.
//!
//! The install says what is to be done next, is told how it went, and goes on
//! from there. Doing it, that is starting processes, writing files and drawing,
//! is the program's business.

use vstd::prelude::*;

use crate::catalog::{Library, LibraryView};
use crate::config;
use crate::interview::{Answers, AnswersView};
use crate::path;
use crate::path::below;
use crate::plan;
use crate::plan::{
    lay_out, make_up_uuid, unmount, Layout, LayoutView, Policy, PolicyView, Slot, Task, TaskView,
    MNT, STATEROOT,
};
use crate::run;
use crate::run::{read_only, Done, Execution, ExecutionView, Failed, FailedView, Runner, Writing, WritingView};
use crate::text;
use crate::text::{emit, number, trimmed, Text};
use crate::tui::{Progress, ProgressView};

verus! {

/// The names of the steps, in their order.
pub const STEPS: [&'static str; 11] = [
    "partition",
    "format",
    "mount",
    "sysroot",
    "configure",
    "build",
    "deploy",
    "etc",
    "bootloader",
    "accounts",
    "finish",
];

/// The number of steps.
pub const COUNT: usize = 11;

/// The names of the steps as contracts see them.
pub open spec fn step_names() -> Seq<Text> {
    STEPS@.map_values(|s: &'static str| s@)
}

// ---------------------------------------------------------------------------
// The deployment
// ---------------------------------------------------------------------------

/// Where libostree keeps its deployments.
pub open spec fn deployments(sysroot: Text) -> Text {
    path::under(path::under(path::under(sysroot, "ostree/deploy"@), STATEROOT@), "deploy"@)
}

/// The deployment of a run that writes none.
pub const NO_DEPLOYMENT: &'static str =
    "0000000000000000000000000000000000000000000000000000000000000000.0";

/// The failure to tell the deployment.
pub open spec fn not_located(message: Text) -> FailedView {
    FailedView {
        what: "locating the deployment"@,
        code: None,
        signal: false,
        tail: seq![message],
    }
}

/// The deployment, given the directories found where deployments are kept, or
/// why those could not be read.
pub open spec fn located(
    sysroot: Text,
    dry_run: bool,
    found: Result<Seq<Text>, Text>,
) -> Result<Text, FailedView> {
    let at = deployments(sysroot);
    if dry_run {
        Ok(path::under(at, NO_DEPLOYMENT@))
    } else {
        match found {
            Err(e) => Err(not_located("cannot read "@ + at + ": "@ + e)),
            Ok(list) => if list.len() == 1 {
                Ok(list[0])
            } else if list.len() == 0 {
                Err(
                    not_located(
                        "no deployment under "@ + at
                            + " — `kiln deploy 1` reported success but wrote nothing"@,
                    ),
                )
            } else {
                Err(
                    not_located(
                        text::decimal(list.len()) + " deployments under "@ + at
                            + " on a disk that was empty; refusing to guess which one GRUB should be installed against"@,
                    ),
                )
            },
        }
    }
}

/// What was found, as contracts see it.
pub open spec fn found_view(found: Result<Vec<String>, String>) -> Result<Seq<Text>, Text> {
    match found {
        Ok(list) => Ok(list.deep_view()),
        Err(e) => Err(e@),
    }
}

/// Where libostree keeps its deployments.
pub fn deployment_dir(sysroot: &str) -> (out: String)
    ensures
        out@ == deployments(sysroot@),
{
    below(below(below(sysroot, "ostree/deploy").as_str(), STATEROOT).as_str(), "deploy")
}

/// A failure to tell the deployment.
fn lost_deployment(message: String) -> (out: Failed)
    ensures
        out@ == not_located(message@),
{
    let mut tail: Vec<String> = Vec::new();
    emit(&mut tail, message);
    let out = Failed {
        what: "locating the deployment".to_owned(),
        code: None,
        signal: false,
        tail,
    };
    assert(out@ =~~= not_located(message@));
    out
}

/// The deployment libostree just wrote, given the directories found where
/// deployments are kept.
///
/// Exactly one is expected, because this runs on a disk that was empty a few
/// steps ago; finding none or several is reported rather than guessed at,
/// because picking one at random would put GRUB on a tree nobody chose. When
/// nothing was written a plausible path lets the rest of the plan be shown.
pub fn deployment(sysroot: &str, dry_run: bool, found: &Result<Vec<String>, String>) -> (out:
    Result<String, Failed>)
    ensures
        run::answer_view(out) == located(sysroot@, dry_run, found_view(*found)),
{
    let at = deployment_dir(sysroot);
    if dry_run {
        return Ok(below(at.as_str(), NO_DEPLOYMENT));
    }
    match found {
        Err(e) => Err(
            lost_deployment(
                "cannot read ".to_owned().concat(at.as_str()).concat(": ").concat(e.as_str()),
            ),
        ),
        Ok(list) => {
            assert(list.deep_view().len() == list@.len());
            if list.len() == 1 {
                assert(list.deep_view()[0] == list@[0]@);
                Ok(list[0].clone())
            } else if list.len() == 0 {
                Err(
                    lost_deployment(
                        "no deployment under ".to_owned().concat(at.as_str()).concat(
                            " — `kiln deploy 1` reported success but wrote nothing",
                        ),
                    ),
                )
            } else {
                Err(
                    lost_deployment(
                        number(list.len() as u64).concat(" deployments under ").concat(
                            at.as_str(),
                        ).concat(
                            " on a disk that was empty; refusing to guess which one GRUB should be installed against",
                        ),
                    ),
                )
            }
        },
    }
}

// ---------------------------------------------------------------------------
// UUIDs
// ---------------------------------------------------------------------------

/// The question for a UUID: of a filesystem, or of a LUKS container.
pub open spec fn uuid_question(slot: Slot, device: Text) -> Seq<Text> {
    if slot == Slot::Luks {
        seq!["cryptsetup"@, "luksUUID"@, device]
    } else {
        seq!["blkid"@, "-s"@, "UUID"@, "-o"@, "value"@, device]
    }
}

/// The program that is asked for a UUID.
pub open spec fn uuid_program(slot: Slot) -> Text {
    if slot == Slot::Luks {
        "cryptsetup luksUUID"@
    } else {
        "blkid"@
    }
}

/// What the answer to the question for a UUID means.
pub open spec fn uuid_answer(
    slot: Slot,
    device: Text,
    got: Result<Text, FailedView>,
) -> Result<Text, FailedView> {
    match got {
        Err(e) => Err(e),
        Ok(out) => if text::trim(out).len() == 0 {
            Err(
                FailedView {
                    what: "reading the UUID of "@ + device,
                    code: None,
                    signal: false,
                    tail: seq![uuid_program(slot) + " printed nothing for "@ + device],
                },
            )
        } else {
            Ok(text::trim(out))
        },
    }
}

/// The question for a UUID.
fn ask_uuid(slot: Slot, device: &str) -> (out: Vec<String>)
    ensures
        out.deep_view() == uuid_question(slot, device@),
{
    let mut out: Vec<String> = Vec::new();
    if slot == Slot::Luks {
        emit(&mut out, "cryptsetup".to_owned());
        emit(&mut out, "luksUUID".to_owned());
    } else {
        emit(&mut out, "blkid".to_owned());
        emit(&mut out, "-s".to_owned());
        emit(&mut out, "UUID".to_owned());
        emit(&mut out, "-o".to_owned());
        emit(&mut out, "value".to_owned());
    }
    emit(&mut out, device.to_owned());
    assert(out.deep_view() =~= uuid_question(slot, device@));
    out
}

/// The UUID, which is what goes into the kernel arguments and into `fstab`. Not
/// the partition's own and not a kernel name: those are not stable across a
/// disk being moved to another port.
pub fn uuid(slot: Slot, device: &str, got: Result<String, Failed>) -> (out: Result<String, Failed>)
    ensures
        run::answer_view(out) == uuid_answer(slot, device@, run::answer_view(got)),
{
    match got {
        Err(e) => Err(e),
        Ok(t) => {
            let id = trimmed(t.as_str());
            if id.as_str().is_empty() {
                let program = if slot == Slot::Luks {
                    "cryptsetup luksUUID"
                } else {
                    "blkid"
                };
                let mut tail: Vec<String> = Vec::new();
                emit(&mut tail, program.to_owned().concat(" printed nothing for ").concat(device));
                let e = Failed {
                    what: "reading the UUID of ".to_owned().concat(device),
                    code: None,
                    signal: false,
                    tail,
                };
                assert(e.tail.deep_view() =~= seq![
                    uuid_program(slot) + " printed nothing for "@ + device@,
                ]);
                Err(e)
            } else {
                Ok(id)
            }
        },
    }
}

// ---------------------------------------------------------------------------
// The module library, once more
// ---------------------------------------------------------------------------

/// The first of some modules that a library does not have.
pub open spec fn first_absent(library: LibraryView, modules: Seq<Text>) -> Option<Text>
    decreases modules.len(),
{
    if modules.len() == 0 {
        None
    } else if !library.has(modules[0]) {
        Some(modules[0])
    } else {
        first_absent(library, modules.drop_first())
    }
}

/// The module of a configuration that a library does not have, if there is one.
pub open spec fn absent_module(library: LibraryView, a: AnswersView) -> Option<Text> {
    first_absent(library, seq![a.profile] + a.modules)
}

/// The refusal to write a configuration with a module that the library does not
/// have.
pub open spec fn refusal(library: LibraryView, module: Text) -> FailedView {
    FailedView {
        what: "writing the configuration"@,
        code: None,
        signal: false,
        tail: seq!["no "@ + module + " in the module library at "@ + library.root],
    }
}

/// The module of a configuration that a library does not have, if there is one.
fn find_absent(library: &Library, a: &Answers) -> (out: Option<String>)
    ensures
        out.deep_view() == absent_module(library@, a@),
{
    let ghost all = seq![a@.profile] + a@.modules;
    if !library.has(a.profile.as_str()) {
        assert(all[0] == a@.profile);
        return Some(a.profile.clone());
    }
    assert(all.drop_first() == a@.modules);
    let mut i: usize = 0;
    assert(a@.modules.skip(0) == a@.modules);
    while i < a.modules.len()
        invariant
            i <= a.modules.len(),
            absent_module(library@, a@) == first_absent(library@, a@.modules.skip(i as int)),
        decreases a.modules.len() - i,
    {
        let ghost rest = a@.modules.skip(i as int);
        assert(rest[0] == a.modules@[i as int]@);
        assert(rest.drop_first() == a@.modules.skip(i + 1));
        if !library.has(a.modules[i].as_str()) {
            return Some(a.modules[i].clone());
        }
        i += 1;
    }
    None
}

// ---------------------------------------------------------------------------
// The install
// ---------------------------------------------------------------------------

/// An install on its way.
pub struct Installer {
    pub run: Runner,
    pub library: Library,
    pub answers: Answers,
    pub layout: Layout,
    /// The deployment, once it is known.
    pub deployment: String,
    /// The number of the step, counted from zero; `COUNT` at the end.
    pub at: usize,
    /// What is left to do of the step.
    pub todo: Vec<Task>,
    /// What the step has mounted, to be unmounted before it is left.
    pub mounted: Vec<String>,
    /// What went wrong, if something did.
    pub failure: Option<Failed>,
    pub progress: Progress,
}

/// What an `Installer` holds, as contracts see it.
#[verifier::ext_equal]
pub struct InstallerView {
    pub dry_run: bool,
    pub logging: bool,
    pub library: LibraryView,
    pub answers: AnswersView,
    pub layout: LayoutView,
    pub deployment: Text,
    pub at: int,
    pub todo: Seq<TaskView>,
    pub mounted: Seq<Text>,
    pub failure: Option<FailedView>,
    pub progress: ProgressView,
}

/// A failure as contracts see it.
pub open spec fn failed_view(e: Option<Failed>) -> Option<FailedView> {
    match e {
        Some(f) => Some(f@),
        None => None,
    }
}

impl View for Installer {
    type V = InstallerView;

    open spec fn view(&self) -> InstallerView {
        InstallerView {
            dry_run: self.run.dry_run,
            logging: self.run.logging,
            library: self.library@,
            answers: self.answers@,
            layout: self.layout@,
            deployment: self.deployment@,
            at: self.at as int,
            todo: self.todo.deep_view(),
            mounted: self.mounted.deep_view(),
            failure: failed_view(self.failure),
            progress: self.progress@,
        }
    }
}

/// What the program is to do next.
pub enum Job {
    /// Run this command.
    Run(Execution),
    /// Run this command and hand back its output.
    Ask { argv: Vec<String> },
    /// Write this file.
    Write(Writing),
    /// List the directories in this directory.
    List { dir: String },
    /// Nothing: the install is done.
    Finished,
    /// Nothing: the install has failed.
    Failed,
}

/// What a `Job` holds, as contracts see it.
#[verifier::ext_equal]
pub enum JobView {
    Run(ExecutionView),
    Ask { argv: Seq<Text> },
    Write(WritingView),
    List { dir: Text },
    Finished,
    Failed,
}

impl View for Job {
    type V = JobView;

    open spec fn view(&self) -> JobView {
        match self {
            Job::Run(x) => JobView::Run(x@),
            Job::Ask { argv } => JobView::Ask { argv: argv.deep_view() },
            Job::Write(w) => JobView::Write(w@),
            Job::List { dir } => JobView::List { dir: dir@ },
            Job::Finished => JobView::Finished,
            Job::Failed => JobView::Failed,
        }
    }
}

/// How a job went.
pub enum Outcome {
    /// A command or a file.
    Done(Done),
    /// A question.
    Answered(Result<String, Failed>),
    /// A directory.
    Listed(Result<Vec<String>, String>),
}

/// What an `Outcome` holds, as contracts see it.
#[verifier::ext_equal]
pub enum OutcomeView {
    Done(Option<FailedView>),
    Answered(Result<Text, FailedView>),
    Listed(Result<Seq<Text>, Text>),
}

impl View for Outcome {
    type V = OutcomeView;

    open spec fn view(&self) -> OutcomeView {
        match self {
            Outcome::Done(d) => OutcomeView::Done(run::failure(*d)),
            Outcome::Answered(r) => OutcomeView::Answered(run::answer_view(*r)),
            Outcome::Listed(r) => OutcomeView::Listed(found_view(*r)),
        }
    }
}

/// What the program does for a task.
pub open spec fn job_for(task: TaskView, dry_run: bool) -> JobView {
    match task {
        TaskView::Run { what, argv, stdin, policy, binds } => JobView::Run(
            run::started(dry_run, what, argv, None, stdin),
        ),
        TaskView::Identify { slot, device } => JobView::Ask {
            argv: uuid_question(slot, device),
        },
        TaskView::Write { at, content } => JobView::Write(
            WritingView { at, content, executes: !dry_run },
        ),
        TaskView::Locate => JobView::List { dir: deployments(MNT@) },
    }
}

/// Whether something is really done for a task: a process is started or a file
/// is written.
pub open spec fn starts(task: TaskView, dry_run: bool) -> bool {
    match job_for(task, dry_run) {
        JobView::Run(x) => x.executes,
        JobView::Write(w) => w.executes,
        _ => true,
    }
}

/// What is shown beside the name of a step.
pub open spec fn detail(at: int, a: AnswersView) -> Text {
    if at == 0 {
        a.disk.path
    } else if at == 1 {
        "vfat, ext4, ext4"@
    } else if at == 2 {
        MNT@
    } else if at == 3 {
        "kiln sysroot init"@
    } else if at == 4 {
        "etc/kiln/system.toml"@
    } else if at == 5 {
        "this takes a while"@
    } else if at == 6 {
        "generation 1"@
    } else if at == 7 {
        "fstab, kiln"@
    } else if at == 8 {
        "grub-install, grub-mkconfig"@
    } else if at == 9 {
        a.username
    } else if at == 10 {
        "unmounting"@
    } else {
        Seq::empty()
    }
}

/// The tasks of a step.
pub open spec fn step_tasks(s: InstallerView, at: int) -> Seq<TaskView> {
    if at == 0 {
        plan::partition_tasks(s.answers, s.dry_run)
    } else if at == 1 {
        plan::format_tasks(s.layout, s.dry_run)
    } else if at == 2 {
        plan::mount_tasks(s.layout)
    } else if at == 3 {
        plan::sysroot_tasks()
    } else if at == 4 {
        plan::configure_tasks(s.answers)
    } else if at == 5 {
        plan::build_tasks(s.library.root)
    } else if at == 6 {
        plan::deploy_tasks(s.dry_run)
    } else if at == 7 {
        plan::etc_tasks(s.deployment, s.layout)
    } else if at == 8 {
        plan::bootloader_tasks(s.deployment)
    } else if at == 9 {
        plan::accounts_tasks(s.deployment, s.answers)
    } else if at == 10 {
        plan::finish_tasks(s.answers)
    } else {
        Seq::empty()
    }
}

impl InstallerView {
    /// The task that is next: of the step as long as nothing has gone wrong,
    /// then the unmounting of what the step has mounted, last first.
    pub open spec fn current(self) -> Option<TaskView> {
        if self.failure is None && self.todo.len() > 0 {
            Some(self.todo[0])
        } else if self.mounted.len() > 0 {
            Some(plan::unmount_task(self.mounted.last()))
        } else {
            None
        }
    }

    /// What the program is to do next.
    pub open spec fn job(self) -> JobView {
        match self.current() {
            Some(task) => job_for(task, self.dry_run),
            None => if self.failure is Some {
                JobView::Failed
            } else {
                JobView::Finished
            },
        }
    }

    /// The install at the beginning of a step, or at its end. The UUID of the
    /// root filesystem goes into the configuration, and a module that the
    /// library does not have keeps that from being written.
    pub open spec fn begun(self, at: int) -> InstallerView {
        let answers = if at == 4 {
            AnswersView { root_uuid: self.layout.root_uuid, ..self.answers }
        } else {
            self.answers
        };
        let s = InstallerView {
            at,
            answers,
            progress: ProgressView { at, detail: detail(at, answers), ..self.progress },
            ..self
        };
        let absent = if at == 4 {
            absent_module(self.library, answers)
        } else {
            None
        };
        match absent {
            Some(m) => InstallerView {
                failure: Some(refusal(self.library, m)),
                todo: Seq::empty(),
                ..s
            },
            None => InstallerView { todo: step_tasks(s, at), ..s },
        }
    }

    /// The failure of the first task as it counts: none, when nothing was
    /// started for it.
    pub open spec fn counted(self, failure: Option<FailedView>) -> Option<FailedView> {
        if starts(self.todo[0], self.dry_run) {
            failure
        } else {
            None
        }
    }

    /// The install after the outcome of the current task, before anything
    /// follows from it. What was not started has not failed.
    pub open spec fn applied(self, outcome: OutcomeView) -> InstallerView {
        if self.failure is None && self.todo.len() > 0 {
            let rest = InstallerView { todo: self.todo.drop_first(), ..self };
            match (self.todo[0], outcome) {
                (
                    TaskView::Run { what, argv, stdin, policy, binds },
                    OutcomeView::Done(failure),
                ) => match self.counted(failure) {
                    None => match binds {
                        Some(to) => InstallerView { mounted: self.mounted.push(to), ..rest },
                        None => rest,
                    },
                    Some(e) => match policy {
                        PolicyView::Abort => InstallerView { failure: Some(e), ..self },
                        PolicyView::Ignore => rest,
                        PolicyView::Explain { line } => InstallerView {
                            progress: self.progress.said(line),
                            ..rest
                        },
                    },
                },
                (TaskView::Write { .. }, OutcomeView::Done(failure)) => match self.counted(
                    failure,
                ) {
                    None => rest,
                    Some(e) => InstallerView { failure: Some(e), ..self },
                },
                (
                    TaskView::Identify { slot, device },
                    OutcomeView::Answered(got),
                ) => match uuid_answer(slot, device, got) {
                    Err(e) => InstallerView { failure: Some(e), ..self },
                    Ok(id) => match slot {
                        Slot::Esp => InstallerView {
                            layout: LayoutView { esp_uuid: id, ..self.layout },
                            ..rest
                        },
                        Slot::Boot => InstallerView {
                            layout: LayoutView { boot_uuid: id, ..self.layout },
                            ..rest
                        },
                        Slot::Root => InstallerView {
                            layout: LayoutView { root_uuid: id, ..self.layout },
                            ..rest
                        },
                        Slot::Luks => InstallerView {
                            answers: AnswersView { luks_uuid: Some(id), ..self.answers },
                            ..rest
                        },
                    },
                },
                (TaskView::Locate, OutcomeView::Listed(found)) => match located(
                    MNT@,
                    self.dry_run,
                    found,
                ) {
                    Err(e) => InstallerView { failure: Some(e), ..self },
                    Ok(dep) => InstallerView { deployment: dep, ..rest },
                },
                _ => self,
            }
        } else if self.mounted.len() > 0 {
            InstallerView { mounted: self.mounted.drop_last(), ..self }
        } else {
            self
        }
    }

    /// The install once it stands at something to do: at the next step when the
    /// last one is complete, and marked as failed when nothing is left to
    /// unmount.
    pub open spec fn settled(self) -> InstallerView {
        if self.mounted.len() > 0 {
            self
        } else if self.failure is Some {
            InstallerView {
                progress: ProgressView { failed: true, ..self.progress },
                ..self
            }
        } else if self.todo.len() > 0 || self.at >= COUNT {
            self
        } else {
            let next = self.begun(self.at + 1);
            if next.failure is Some {
                InstallerView {
                    progress: ProgressView { failed: true, ..next.progress },
                    ..next
                }
            } else {
                next
            }
        }
    }

    /// The install after the outcome of the current task.
    pub open spec fn after(self, outcome: OutcomeView) -> InstallerView {
        self.applied(outcome).settled()
    }

    /// Whether the install stands at something to do, or at its end.
    pub open spec fn well_formed(self) -> bool {
        &&& 0 <= self.at <= COUNT
        &&& commands_are_named(self.todo)
        &&& self.at == COUNT ==> self.todo.len() == 0 && self.mounted.len() == 0 && self.failure is None
        &&& self.current() is None ==> self.at == COUNT || self.failure is Some
        &&& self.current() is None && self.failure is Some ==> self.progress.failed
        &&& self.progress.at == self.at
        &&& self.progress.steps == step_names()
    }

    /// Whether an outcome is one of the current task.
    pub open spec fn expects(self, outcome: OutcomeView) -> bool {
        match self.current() {
            Some(TaskView::Run { .. }) => outcome is Done,
            Some(TaskView::Write { .. }) => outcome is Done,
            Some(TaskView::Identify { .. }) => outcome is Answered,
            Some(TaskView::Locate) => outcome is Listed,
            None => false,
        }
    }

    /// The install as it starts.
    pub open spec fn fresh(run: Runner, library: LibraryView, a: AnswersView) -> InstallerView {
        let dry_run = run.dry_run;
        let answers = if dry_run && a.encrypt {
            AnswersView { luks_uuid: Some(plan::made_up_uuid(a.disk.partition(3))), ..a }
        } else {
            a
        };
        InstallerView {
            dry_run,
            logging: run.logging,
            library,
            answers,
            layout: plan::blank_layout(a, dry_run),
            deployment: if dry_run {
                path::under(deployments(MNT@), NO_DEPLOYMENT@)
            } else {
                Seq::empty()
            },
            at: 0,
            todo: Seq::empty(),
            mounted: Seq::empty(),
            failure: None,
            progress: ProgressView::fresh(step_names()),
        }.begun(0)
    }
}

/// What is shown beside the name of a step.
fn detail_text(at: usize, a: &Answers) -> (out: String)
    ensures
        out@ == detail(at as int, a@),
{
    if at == 0 {
        a.disk.path.clone()
    } else if at == 1 {
        "vfat, ext4, ext4".to_owned()
    } else if at == 2 {
        MNT.to_owned()
    } else if at == 3 {
        "kiln sysroot init".to_owned()
    } else if at == 4 {
        "etc/kiln/system.toml".to_owned()
    } else if at == 5 {
        "this takes a while".to_owned()
    } else if at == 6 {
        "generation 1".to_owned()
    } else if at == 7 {
        "fstab, kiln".to_owned()
    } else if at == 8 {
        "grub-install, grub-mkconfig".to_owned()
    } else if at == 9 {
        a.username.clone()
    } else if at == 10 {
        "unmounting".to_owned()
    } else {
        let out = String::new();
        assert(out@ == Seq::<char>::empty());
        out
    }
}

impl Installer {
    /// The install of some answers, at its first step.
    pub fn install(run: Runner, library: Library, answers: Answers) -> (out: Installer)
        ensures
            out@ == InstallerView::fresh(run, library@, answers@),
            out.run == run,
            out@.well_formed(),
    {
        let dry_run = run.dry_run;
        let layout = lay_out(&answers, dry_run);
        let mut answers = answers;
        if dry_run && answers.encrypt {
            answers.luks_uuid = Some(make_up_uuid(answers.disk.partition(3).as_str()));
        }
        let deployment = if dry_run {
            below(deployment_dir(MNT).as_str(), NO_DEPLOYMENT)
        } else {
            String::new()
        };
        let mut out = Installer {
            run,
            library,
            answers,
            layout,
            deployment,
            at: 0,
            todo: Vec::new(),
            mounted: Vec::new(),
            failure: None,
            progress: Progress::new(&STEPS),
        };
        assert(out.todo.deep_view() =~= Seq::<TaskView>::empty());
        assert(out.mounted.deep_view() =~= Seq::<Text>::empty());
        out.begin(0);
        proof {
            lemma_steps_are_named(out@, 0);
        }
        out
    }

    /// Begins a step, or comes to the end.
    fn begin(&mut self, at: usize)
        ensures
            final(self)@ == old(self)@.begun(at as int),
            final(self).run == old(self).run,
    {
        let dry_run = self.run.dry_run;
        if at == 4 {
            self.answers.root_uuid = self.layout.root_uuid.clone();
        }
        self.at = at;
        self.progress.at = at;
        self.progress.detail = detail_text(at, &self.answers);
        if at == 4 {
            if let Some(m) = find_absent(&self.library, &self.answers) {
                let mut tail: Vec<String> = Vec::new();
                emit(
                    &mut tail,
                    "no ".to_owned().concat(m.as_str()).concat(
                        " in the module library at ",
                    ).concat(self.library.root.as_str()),
                );
                self.failure = Some(
                    Failed {
                        what: "writing the configuration".to_owned(),
                        code: None,
                        signal: false,
                        tail,
                    },
                );
                self.todo = Vec::new();
                assert(self.todo.deep_view() =~= Seq::<TaskView>::empty());
                assert(self@.failure->Some_0 =~~= refusal(self@.library, m@));
                return ;
            }
        }
        self.todo = if at == 0 {
            plan::partition(&self.answers, dry_run)
        } else if at == 1 {
            plan::format(&self.layout, dry_run)
        } else if at == 2 {
            plan::mount(&self.layout)
        } else if at == 3 {
            plan::sysroot()
        } else if at == 4 {
            plan::configure(&self.answers)
        } else if at == 5 {
            plan::build(self.library.root.as_str())
        } else if at == 6 {
            plan::deploy(dry_run)
        } else if at == 7 {
            plan::etc(self.deployment.as_str(), &self.layout)
        } else if at == 8 {
            plan::bootloader(self.deployment.as_str())
        } else if at == 9 {
            plan::accounts(self.deployment.as_str(), &self.answers)
        } else if at == 10 {
            plan::finish(&self.answers)
        } else {
            let none: Vec<Task> = Vec::new();
            assert(none.deep_view() =~= Seq::<TaskView>::empty());
            none
        };
        assert(self@ =~= old(self)@.begun(at as int));
    }

    /// What the program does for a task.
    fn job_of(&self, task: &Task) -> (out: Job)
        requires
            task@ matches TaskView::Run { what, argv, stdin, policy, binds } ==> argv.len() > 0,
        ensures
            out@ == job_for(task@, self@.dry_run),
            out matches Job::Run(x) ==> x.argv@.len() > 0,
    {
        match task {
            Task::Run { what, argv, stdin, policy: _, binds: _ } => {
                assert(argv.deep_view().len() == argv@.len());
                let piped = match stdin {
                    Some(t) => Some(t.clone()),
                    None => None,
                };
                let x = self.run.exec(what.as_str(), argv.as_slice(), None, piped);
                assert(x@.argv.len() == x.argv@.len());
                Job::Run(x)
            },
            Task::Identify { slot, device } => Job::Ask { argv: ask_uuid(*slot, device.as_str()) },
            Task::Write { at, content } => Job::Write(
                self.run.write(at.as_str(), content.as_str()),
            ),
            Task::Locate => Job::List { dir: deployment_dir(MNT) },
        }
    }

    /// What to do next.
    pub fn next(&self) -> (out: Job)
        requires
            self@.well_formed(),
        ensures
            out@ == self@.job(),
            out matches Job::Run(x) ==> x.argv@.len() > 0,
    {
        assert(self.todo.deep_view().len() == self.todo@.len());
        assert(self.mounted.deep_view().len() == self.mounted@.len());
        if self.failure.is_none() && self.todo.len() > 0 {
            assert(self@.todo[0] == self.todo@[0]@);
            self.job_of(&self.todo[0])
        } else if self.mounted.len() > 0 {
            let last: usize = self.mounted.len() - 1;
            assert(self@.mounted.last() == self.mounted@[last as int]@);
            let task = unmount(self.mounted[last].as_str());
            self.job_of(&task)
        } else if self.failure.is_some() {
            Job::Failed
        } else {
            Job::Finished
        }
    }

    /// Shows a line of the running command.
    pub fn say(&mut self, line: String)
        ensures
            final(self)@ == (InstallerView {
                progress: old(self)@.progress.said(line@),
                ..old(self)@
            }),
            old(self)@.well_formed() ==> final(self)@.well_formed(),
            final(self).run == old(self).run,
    {
        self.progress.say(line);
    }

    /// Drops the first of what is left to do.
    fn drop_task(&mut self)
        requires
            old(self).todo@.len() > 0,
        ensures
            final(self)@ == (InstallerView { todo: old(self)@.todo.drop_first(), ..old(self)@ }),
            final(self).run == old(self).run,
    {
        let _first = self.todo.remove(0);
        assert(self.todo.deep_view() =~= old(self).todo.deep_view().drop_first());
    }

    /// Whether something is really done for a task.
    fn is_started(&self, task: &Task) -> (r: bool)
        ensures
            r == starts(task@, self@.dry_run),
    {
        match task {
            Task::Run { what: _, argv, stdin: _, policy: _, binds: _ } => !self.run.dry_run
                || read_only(argv.as_slice()),
            Task::Write { at: _, content: _ } => !self.run.dry_run,
            Task::Identify { slot: _, device: _ } => true,
            Task::Locate => true,
        }
    }

    /// Takes the outcome of what was to be done, and nothing more.
    fn apply(&mut self, outcome: Outcome)
        requires
            old(self)@.expects(outcome@),
        ensures
            final(self)@ == old(self)@.applied(outcome@),
            final(self).run == old(self).run,
    {
        let ghost was = self@;
        assert(self.todo.deep_view().len() == self.todo@.len());
        assert(self.mounted.deep_view().len() == self.mounted@.len());
        if self.failure.is_some() || self.todo.len() == 0 {
            let _last = self.mounted.pop();
            assert(self.mounted.deep_view() =~= was.mounted.drop_last());
            return ;
        }
        assert(was.todo[0] == self.todo@[0]@);
        let started: bool = self.is_started(&self.todo[0]);
        let counted = match outcome {
            Outcome::Done(Err(_)) if !started => Outcome::Done(Ok(())),
            other => other,
        };
        match counted {
            Outcome::Done(Ok(_)) => {
                let mut bound: Option<String> = None;
                if let Task::Run { what: _, argv: _, stdin: _, policy: _, binds } = &self.todo[0] {
                    if let Some(to) = binds {
                        bound = Some(to.clone());
                    }
                }
                self.drop_task();
                if let Some(to) = bound {
                    emit(&mut self.mounted, to);
                }
            },
            Outcome::Done(Err(e)) => {
                let mut aborts = true;
                let mut line: Option<String> = None;
                if let Task::Run { what: _, argv: _, stdin: _, policy, binds: _ } = &self.todo[0] {
                    match policy {
                        Policy::Abort => {},
                        Policy::Ignore => {
                            aborts = false;
                        },
                        Policy::Explain { line: l } => {
                            aborts = false;
                            line = Some(l.clone());
                        },
                    }
                }
                if aborts {
                    self.failure = Some(e);
                } else {
                    self.drop_task();
                    if let Some(l) = line {
                        self.progress.say(l);
                    }
                }
            },
            Outcome::Answered(got) => {
                let mut asked: Option<Slot> = None;
                let mut of = String::new();
                if let Task::Identify { slot, device } = &self.todo[0] {
                    asked = Some(*slot);
                    of = device.clone();
                }
                if let Some(slot) = asked {
                    match uuid(slot, of.as_str(), got) {
                        Err(e) => {
                            self.failure = Some(e);
                        },
                        Ok(id) => {
                            self.drop_task();
                            match slot {
                                Slot::Esp => {
                                    self.layout.esp_uuid = id;
                                },
                                Slot::Boot => {
                                    self.layout.boot_uuid = id;
                                },
                                Slot::Root => {
                                    self.layout.root_uuid = id;
                                },
                                Slot::Luks => {
                                    self.answers.luks_uuid = Some(id);
                                },
                            }
                        },
                    }
                }
            },
            Outcome::Listed(found) => {
                match deployment(MNT, self.run.dry_run, &found) {
                    Err(e) => {
                        self.failure = Some(e);
                    },
                    Ok(dep) => {
                        self.drop_task();
                        self.deployment = dep;
                    },
                }
            },
        }
        assert(self@ =~= was.applied(outcome@));
    }

    /// Takes the outcome of what was to be done, and goes on from there.
    pub fn report(&mut self, outcome: Outcome)
        requires
            old(self)@.well_formed(),
            old(self)@.expects(outcome@),
        ensures
            final(self)@ == old(self)@.after(outcome@),
            final(self)@.well_formed(),
            final(self).run == old(self).run,
    {
        proof {
            lemma_steps_follow_each_other(self@, outcome@);
        }
        self.apply(outcome);
        assert(self.todo.deep_view().len() == self.todo@.len());
        assert(self.mounted.deep_view().len() == self.mounted@.len());
        if self.mounted.len() > 0 {
            return ;
        }
        if self.failure.is_some() {
            self.progress.failed = true;
            return ;
        }
        if self.todo.len() > 0 || self.at >= COUNT {
            return ;
        }
        let next: usize = self.at + 1;
        self.begin(next);
        if self.failure.is_some() {
            self.progress.failed = true;
        }
    }
}

/// Whether every command of a list names a program.
pub open spec fn commands_are_named(tasks: Seq<TaskView>) -> bool {
    forall|k: int|
        0 <= k < tasks.len() ==> (#[trigger] tasks[k] matches TaskView::Run {
            what,
            argv,
            stdin,
            policy,
            binds,
        } ==> argv.len() > 0)
}

// ---------------------------------------------------------------------------
// Laws
// ---------------------------------------------------------------------------

#[verifier::rlimit(40)]
proof fn lemma_steps_are_named(s: InstallerView, at: int)
    ensures
        commands_are_named(step_tasks(s, at)),
        0 <= at < COUNT ==> step_tasks(s, at).len() > 0,
{
    if at == 0 {
        assert(commands_are_named(plan::container_tasks(s.answers, s.dry_run)));
    } else if at == 8 || at == 9 {
        lemma_enter_is_named(s.deployment);
    }
}

proof fn lemma_enter_is_named(dep: Text)
    ensures
        commands_are_named(plan::enter_tasks(dep)),
{
}

/// Whatever its outcome, a job leaves the install in order: it is at the same
/// step or at the next one, never further. It comes to the next one only when
/// all of the step is done, nothing went wrong and nothing is left mounted.
pub proof fn lemma_steps_follow_each_other(s: InstallerView, outcome: OutcomeView)
    requires
        s.well_formed(),
        s.expects(outcome),
    ensures
        s.after(outcome).well_formed(),
        s.after(outcome).at == s.at || s.after(outcome).at == s.at + 1,
        s.after(outcome).at == s.at + 1 ==> {
            &&& s.failure is None
            &&& s.applied(outcome).failure is None
            &&& s.applied(outcome).todo.len() == 0
            &&& s.applied(outcome).mounted.len() == 0
        },
        s.after(outcome).at == s.at + 1 && s.after(outcome).failure is None ==> s.after(
            outcome,
        ).todo == step_tasks(s.after(outcome), s.at + 1),
{
    let mid = s.applied(outcome);
    if s.failure is None && s.todo.len() > 0 {
        assert(forall|k: int|
            0 <= k < s.todo.drop_first().len() ==> #[trigger] s.todo.drop_first()[k] == s.todo[k
                + 1]);
    }
    assert(commands_are_named(mid.todo));
    if mid.mounted.len() == 0 && mid.failure is None && mid.todo.len() == 0 {
        let next = mid.begun(mid.at + 1);
        lemma_steps_are_named(next, mid.at + 1);
        lemma_step_tasks_depend(next, mid.at + 1);
    }
}

proof fn lemma_step_tasks_depend(s: InstallerView, at: int)
    ensures
        step_tasks((InstallerView { todo: Seq::empty(), ..s }), at) == step_tasks(s, at),
{
}

/// The first failure is the one that is reported: once something went wrong
/// nothing changes it, no further step is begun, and all that is left to do is
/// to unmount.
pub proof fn lemma_first_failure_stands(s: InstallerView, outcome: OutcomeView)
    requires
        s.well_formed(),
        s.failure is Some,
        s.expects(outcome),
    ensures
        s.after(outcome).failure == s.failure,
        s.after(outcome).at == s.at,
        s.current() == Some(plan::unmount_task(s.mounted.last())),
        s.after(outcome).mounted == s.mounted.drop_last(),
{
}

/// What a step has mounted is unmounted before it is left, last first, whether
/// it succeeded or not: with nothing left to do of the step, the job is to
/// unmount the latest mount, and the install ends with nothing mounted.
pub proof fn lemma_mounts_are_undone(s: InstallerView)
    requires
        s.well_formed(),
    ensures
        s.mounted.len() > 0 && (s.failure is Some || s.todo.len() == 0) ==> s.current() == Some(
            plan::unmount_task(s.mounted.last()),
        ),
        s.job() is Finished ==> s.mounted.len() == 0 && s.at == COUNT && s.failure is None,
        s.job() is Failed ==> s.mounted.len() == 0 && s.failure is Some && s.progress.failed,
{
}

/// How much of an install is left at most: steps, then tasks of the step, then
/// mounts.
pub open spec fn left(s: InstallerView) -> (int, int, int) {
    (
        COUNT - s.at,
        if s.failure is None {
            s.todo.len() as int + 1
        } else {
            0
        },
        s.mounted.len() as int,
    )
}

/// The install comes to an end: every outcome leaves less of it.
pub proof fn lemma_every_outcome_is_progress(s: InstallerView, outcome: OutcomeView)
    requires
        s.well_formed(),
        s.expects(outcome),
    ensures
        ({
            let (steps, tasks, mounts) = left(s);
            let (steps2, tasks2, mounts2) = left(s.after(outcome));
            &&& 0 <= steps2 && 0 <= tasks2 && 0 <= mounts2
            &&& steps2 < steps || (steps2 == steps && (tasks2 < tasks || (tasks2 == tasks && mounts2
                < mounts)))
        }),
{
    lemma_steps_follow_each_other(s, outcome);
}

/// A task without what is piped to its command.
pub open spec fn without_stdin(task: TaskView) -> TaskView {
    match task {
        TaskView::Run { what, argv, stdin, policy, binds } => TaskView::Run {
            what,
            argv,
            stdin: None,
            policy,
            binds,
        },
        _ => task,
    }
}

/// Passwords and the passphrase reach a command on its stdin and nowhere else:
/// installs that differ only in those have the same commands with the same
/// arguments, and write the same files.
#[verifier::rlimit(40)]
pub proof fn lemma_secrets_only_on_stdin(s: InstallerView, b: AnswersView, at: int)
    requires
        b == (AnswersView {
            user_password: b.user_password,
            root_password: b.root_password,
            passphrase: b.passphrase,
            ..s.answers
        }),
        s.answers.root_password.len() == 0 <==> b.root_password.len() == 0,
    ensures
        step_tasks(s, at).map_values(|t: TaskView| without_stdin(t)) == step_tasks(
            (InstallerView { answers: b, ..s }),
            at,
        ).map_values(|t: TaskView| without_stdin(t)),
{
    let other = InstallerView { answers: b, ..s };
    let mask = |t: TaskView| without_stdin(t);
    if at == 0 {
        let x = plan::container_tasks(s.answers, s.dry_run);
        let y = plan::container_tasks(b, s.dry_run);
        assert(x.len() == y.len());
        assert forall|k: int| 0 <= k < x.len() implies mask(#[trigger] x[k]) == mask(y[k]) by {}
    } else if at == 4 {
        config::lemma_accounts_stay_out(s.answers, b);
    } else if at == 9 {
        let x = plan::account_tasks(s.deployment, s.answers);
        let y = plan::account_tasks(s.deployment, b);
        assert forall|k: int| 0 <= k < x.len() implies mask(#[trigger] x[k]) == mask(y[k]) by {}
    }
    assert(step_tasks(s, at).map_values(mask) =~= step_tasks(other, at).map_values(mask));
}

/// Whether a program begins with a character that none of those that only ask
/// begin with.
spec fn changes(program: Text) -> bool {
    program.len() > 0 && program[0] != 'l' && program[0] != 'b' && program[0] != 'f'
}

spec fn does_not_ask(argv: Seq<Text>) -> bool {
    argv.len() > 0 && changes(argv[0])
}

spec fn none_asks(tasks: Seq<TaskView>) -> bool {
    forall|k: int|
        0 <= k < tasks.len() ==> match #[trigger] tasks[k] {
            TaskView::Run { what, argv, stdin, policy, binds } => does_not_ask(argv),
            TaskView::Write { .. } => true,
            TaskView::Identify { .. } => false,
            TaskView::Locate => false,
        }
}

proof fn lemma_programs_change()
    ensures
        changes("wipefs"@),
        changes("sgdisk"@),
        changes("partprobe"@),
        changes("udevadm"@),
        changes("cryptsetup"@),
        changes("mkfs.fat"@),
        changes("mkfs.ext4"@),
        changes("umount"@),
        changes("mkdir"@),
        changes("mount"@),
        changes("kiln"@),
        changes("cp"@),
        changes("rm"@),
        changes("rmdir"@),
        changes("chroot"@),
{
    reveal_strlit("wipefs");
    reveal_strlit("sgdisk");
    reveal_strlit("partprobe");
    reveal_strlit("udevadm");
    reveal_strlit("cryptsetup");
    reveal_strlit("mkfs.fat");
    reveal_strlit("mkfs.ext4");
    reveal_strlit("umount");
    reveal_strlit("mkdir");
    reveal_strlit("mount");
    reveal_strlit("kiln");
    reveal_strlit("cp");
    reveal_strlit("rm");
    reveal_strlit("rmdir");
    reveal_strlit("chroot");
}

proof fn lemma_none_of_both_asks(a: Seq<TaskView>, b: Seq<TaskView>)
    requires
        none_asks(a),
        none_asks(b),
    ensures
        none_asks(a + b),
{
    let both = a + b;
    assert forall|k: int| 0 <= k < both.len() implies match #[trigger] both[k] {
        TaskView::Run { what, argv, stdin, policy, binds } => does_not_ask(argv),
        TaskView::Write { .. } => true,
        TaskView::Identify { .. } => false,
        TaskView::Locate => false,
    } by {
        if k < a.len() {
            assert(both[k] == a[k]);
        } else {
            assert(both[k] == b[k - a.len()]);
        }
    }
}

proof fn lemma_entering_asks_nothing(dep: Text)
    ensures
        none_asks(plan::enter_tasks(dep)),
{
    lemma_programs_change();
}

#[verifier::rlimit(40)]
proof fn lemma_none_asks(s: InstallerView, at: int)
    requires
        s.dry_run,
    ensures
        none_asks(step_tasks(s, at)),
{
    lemma_programs_change();
    if at == 0 {
        assert(none_asks(plan::container_tasks(s.answers, true)));
    } else if at == 8 {
        lemma_entering_asks_nothing(s.deployment);
        assert(none_asks(plan::grub_tasks(s.deployment)));
        lemma_none_of_both_asks(
            plan::enter_tasks(s.deployment),
            plan::grub_tasks(s.deployment),
        );
    } else if at == 9 {
        lemma_entering_asks_nothing(s.deployment);
        assert(none_asks(plan::account_tasks(s.deployment, s.answers)));
        lemma_none_of_both_asks(
            plan::enter_tasks(s.deployment),
            plan::account_tasks(s.deployment, s.answers),
        );
    }
}

/// Whether a job changes nothing: a command that is not started, or a file that
/// is not written.
pub open spec fn touches_nothing(job: JobView) -> bool {
    match job {
        JobView::Run(x) => !x.executes,
        JobView::Write(w) => !w.executes,
        JobView::Ask { .. } => false,
        JobView::List { .. } => false,
        JobView::Finished => true,
        JobView::Failed => true,
    }
}

/// A dry run executes nothing and writes nothing: not a single task of any step
/// starts a process, not even one that would only ask, and the same holds of
/// unmounting.
pub proof fn lemma_dry_run_touches_nothing(s: InstallerView, at: int, k: int, mount: Text)
    requires
        s.dry_run,
        0 <= k < step_tasks(s, at).len(),
    ensures
        touches_nothing(job_for(step_tasks(s, at)[k], s.dry_run)),
        touches_nothing(job_for(plan::unmount_task(mount), s.dry_run)),
{
    reveal_strlit("lsblk");
    reveal_strlit("blkid");
    reveal_strlit("findmnt");
    reveal_strlit("localectl");
    reveal_strlit("umount");
    lemma_none_asks(s, at);
    let argv = seq!["umount"@, "--recursive"@, "--lazy"@, mount];
    assert(argv[0][0] == 'u');
    assert(!run::only_asks(argv));
}

/// The commands and files among some tasks, without the questions.
pub open spec fn without_questions(tasks: Seq<TaskView>) -> Seq<TaskView>
    decreases tasks.len(),
{
    if tasks.len() == 0 {
        Seq::empty()
    } else {
        let front = without_questions(tasks.drop_last());
        match tasks.last() {
            TaskView::Identify { .. } | TaskView::Locate => front,
            _ => front.push(tasks.last()),
        }
    }
}

proof fn lemma_no_questions(tasks: Seq<TaskView>)
    requires
        forall|k: int|
            0 <= k < tasks.len() ==> !((#[trigger] tasks[k]) is Identify) && !(tasks[k] is Locate),
    ensures
        without_questions(tasks) == tasks,
    decreases tasks.len(),
{
    if tasks.len() > 0 {
        let front = tasks.drop_last();
        assert(forall|k: int| 0 <= k < front.len() ==> #[trigger] front[k] == tasks[k]);
        lemma_no_questions(front);
        assert(!(tasks[tasks.len() - 1] is Identify));
        assert(front.push(tasks.last()) =~= tasks);
    } else {
        assert(without_questions(tasks) =~= tasks);
    }
}

proof fn lemma_without_questions_splits(a: Seq<TaskView>, b: Seq<TaskView>)
    ensures
        without_questions(a + b) == without_questions(a) + without_questions(b),
    decreases b.len(),
{
    if b.len() == 0 {
        assert(a + b =~= a);
        assert(without_questions(a) + without_questions(b) =~= without_questions(a));
    } else {
        lemma_without_questions_splits(a, b.drop_last());
        assert((a + b).drop_last() =~= a + b.drop_last());
        assert((a + b).last() == b.last());
        assert(without_questions(a + b) =~= without_questions(a) + without_questions(b));
    }
}

proof fn lemma_only_questions(tasks: Seq<TaskView>)
    requires
        forall|k: int|
            0 <= k < tasks.len() ==> (#[trigger] tasks[k]) is Identify || tasks[k] is Locate,
    ensures
        without_questions(tasks) == Seq::<TaskView>::empty(),
    decreases tasks.len(),
{
    if tasks.len() > 0 {
        let front = tasks.drop_last();
        assert(forall|k: int| 0 <= k < front.len() ==> #[trigger] front[k] == tasks[k]);
        lemma_only_questions(front);
        assert(tasks[tasks.len() - 1] is Identify || tasks[tasks.len() - 1] is Locate);
    }
}

/// A dry run shows the very list of commands and files that a real run goes
/// through, step by step: the two differ only in the questions for what the
/// real run has made, and a dry run makes up the answers to those.
pub proof fn lemma_dry_run_shows_the_plan(s: InstallerView, at: int)
    requires
        !s.dry_run,
        0 <= at < COUNT,
    ensures
        without_questions(step_tasks(s, at)) == step_tasks(
            (InstallerView { dry_run: true, ..s }),
            at,
        ),
{
    let dry = InstallerView { dry_run: true, ..s };
    let real_tasks = step_tasks(s, at);
    let dry_tasks = step_tasks(dry, at);
    lemma_none_asks(dry, at);
    lemma_no_questions(dry_tasks);
    if at == 0 && s.answers.encrypt {
        let n = dry_tasks.len() as int;
        let ask = real_tasks[n - 1];
        let head = dry_tasks.take(n - 1);
        let tail = dry_tasks.skip(n - 1);
        assert(real_tasks =~= head + seq![ask] + tail);
        assert(dry_tasks =~= head + tail);
        lemma_without_questions_splits(head + seq![ask], tail);
        lemma_without_questions_splits(head, seq![ask]);
        lemma_only_questions(seq![ask]);
        lemma_without_questions_splits(head, tail);
        assert(without_questions(head) + Seq::<TaskView>::empty() =~= without_questions(head));
    } else if at == 1 || at == 6 {
        let n = dry_tasks.len() as int;
        let asks = real_tasks.skip(n);
        assert(real_tasks =~= dry_tasks + asks);
        lemma_without_questions_splits(dry_tasks, asks);
        lemma_only_questions(asks);
        assert(dry_tasks + Seq::<TaskView>::empty() =~= dry_tasks);
    } else {
        assert(real_tasks =~= dry_tasks);
    }
}

/// A configuration is written only when the machine's library has each module
/// it names.
pub proof fn lemma_configuration_names_known_modules(s: InstallerView)
    ensures
        s.begun(4).failure is None && s.failure is None ==> forall|m: Text|
            #[trigger] (seq![s.answers.profile] + s.answers.modules).contains(m) ==> s.library.has(
                m,
            ),
{
    lemma_first_absent(s.library, seq![s.answers.profile] + s.answers.modules);
}

proof fn lemma_first_absent(library: LibraryView, modules: Seq<Text>)
    ensures
        first_absent(library, modules) is None ==> forall|m: Text|
            #[trigger] modules.contains(m) ==> library.has(m),
    decreases modules.len(),
{
    if modules.len() > 0 && first_absent(library, modules) is None {
        let rest = modules.drop_first();
        lemma_first_absent(library, rest);
        assert forall|m: Text| #[trigger] modules.contains(m) implies library.has(m) by {
            let k = choose|k: int| 0 <= k < modules.len() && modules[k] == m;
            if k > 0 {
                assert(rest[k - 1] == m);
                assert(rest.contains(m));
            }
        }
    }
}

/// Whether the UUID of something is known.
pub open spec fn known(s: InstallerView, slot: Slot) -> bool {
    match slot {
        Slot::Esp => s.layout.esp_uuid.len() > 0,
        Slot::Boot => s.layout.boot_uuid.len() > 0,
        Slot::Root => s.layout.root_uuid.len() > 0,
        Slot::Luks => s.answers.luks_uuid matches Some(u) && u.len() > 0,
    }
}

/// Whether the UUID of something is still to be asked for.
pub open spec fn to_be_asked(tasks: Seq<TaskView>, slot: Slot) -> bool {
    exists|k: int|
        0 <= k < tasks.len() && (#[trigger] tasks[k] matches TaskView::Identify { slot: q, device }
            && q == slot)
}

/// Whether every UUID is known by the time it is needed: the container's after
/// the first step, the filesystems' after the second. A container is asked for
/// only when there is one.
pub open spec fn identified(s: InstallerView) -> bool {
    &&& s.answers.luks_uuid is Some || to_be_asked(s.todo, Slot::Luks) ==> s.answers.encrypt
    &&& s.failure is None ==> {
        &&& s.answers.encrypt ==> known(s, Slot::Luks) || (s.at == 0 && to_be_asked(
            s.todo,
            Slot::Luks,
        ))
        &&& s.at >= 1 ==> known(s, Slot::Esp) || (s.at == 1 && to_be_asked(s.todo, Slot::Esp))
        &&& s.at >= 1 ==> known(s, Slot::Boot) || (s.at == 1 && to_be_asked(s.todo, Slot::Boot))
        &&& s.at >= 1 ==> known(s, Slot::Root) || (s.at == 1 && to_be_asked(s.todo, Slot::Root))
    }
}

proof fn lemma_still_to_be_asked(tasks: Seq<TaskView>, slot: Slot)
    requires
        tasks.len() > 0,
    ensures
        to_be_asked(tasks.drop_first(), slot) ==> to_be_asked(tasks, slot),
        to_be_asked(tasks, slot) ==> to_be_asked(tasks.drop_first(), slot) || (
        tasks[0] matches TaskView::Identify { slot: q, device } && q == slot),
{
    let rest = tasks.drop_first();
    assert(forall|k: int| 0 <= k < rest.len() ==> #[trigger] rest[k] == tasks[k + 1]);
    if to_be_asked(rest, slot) {
        let k = choose|k: int|
            0 <= k < rest.len() && (#[trigger] rest[k] matches TaskView::Identify {
                slot: q,
                device,
            } && q == slot);
        assert(tasks[k + 1] == rest[k]);
    }
    if to_be_asked(tasks, slot) {
        let k = choose|k: int|
            0 <= k < tasks.len() && (#[trigger] tasks[k] matches TaskView::Identify {
                slot: q,
                device,
            } && q == slot);
        if k > 0 {
            assert(rest[k - 1] == tasks[k]);
        }
    }
}

#[verifier::rlimit(40)]
proof fn lemma_luks_is_asked_first(s: InstallerView, at: int)
    ensures
        to_be_asked(step_tasks(s, at), Slot::Luks) ==> at == 0 && s.answers.encrypt,
        at == 0 && s.answers.encrypt && !s.dry_run ==> to_be_asked(step_tasks(s, at), Slot::Luks),
        at == 1 && !s.dry_run ==> to_be_asked(step_tasks(s, at), Slot::Esp) && to_be_asked(
            step_tasks(s, at),
            Slot::Boot,
        ) && to_be_asked(step_tasks(s, at), Slot::Root),
{
    let tasks = step_tasks(s, at);
    if at == 0 && s.answers.encrypt && !s.dry_run {
        assert(tasks[6] == TaskView::Identify {
            slot: Slot::Luks,
            device: s.answers.disk.partition(3),
        });
    }
    if at == 1 && !s.dry_run {
        assert(tasks[4] == TaskView::Identify { slot: Slot::Esp, device: s.layout.esp });
        assert(tasks[5] == TaskView::Identify { slot: Slot::Boot, device: s.layout.boot });
        assert(tasks[6] == TaskView::Identify { slot: Slot::Root, device: s.layout.root });
    }
    if to_be_asked(tasks, Slot::Luks) {
        let k = choose|k: int|
            0 <= k < tasks.len() && (#[trigger] tasks[k] matches TaskView::Identify {
                slot: q,
                device,
            } && q == Slot::Luks);
        if at == 8 {
            lemma_enter_asks_nothing(s.deployment, k);
        } else if at == 9 {
            lemma_enter_asks_nothing(s.deployment, k);
        }
    }
}

proof fn lemma_enter_asks_nothing(dep: Text, k: int)
    ensures
        0 <= k < plan::enter_tasks(dep).len() ==> plan::enter_tasks(dep)[k] is Run,
{
}

/// The UUIDs are known in time, in a real run and in a dry one, however the
/// install goes.
pub proof fn lemma_uuids_are_known_in_time(s: InstallerView, outcome: OutcomeView)
    requires
        s.well_formed(),
        s.expects(outcome),
        identified(s),
        s.dry_run ==> known(s, Slot::Esp) && known(s, Slot::Boot) && known(s, Slot::Root),
    ensures
        identified(s.after(outcome)),
        s.dry_run ==> known(s.after(outcome), Slot::Esp) && known(s.after(outcome), Slot::Boot)
            && known(s.after(outcome), Slot::Root),
{
    let mid = s.applied(outcome);
    if s.failure is None && s.todo.len() > 0 {
        lemma_still_to_be_asked(s.todo, Slot::Esp);
        lemma_still_to_be_asked(s.todo, Slot::Boot);
        lemma_still_to_be_asked(s.todo, Slot::Root);
        lemma_still_to_be_asked(s.todo, Slot::Luks);
        if let TaskView::Identify { slot, device } = s.todo[0] {
            assert(to_be_asked(s.todo, slot));
        }
    }
    assert(identified(mid));
    if mid.mounted.len() == 0 && mid.failure is None && mid.todo.len() == 0 && mid.at < COUNT {
        let next = mid.begun(mid.at + 1);
        lemma_luks_is_asked_first(next, mid.at + 1);
        lemma_step_tasks_depend(next, mid.at + 1);
        assert(identified(next));
    }
}

/// The same holds from the start.
pub proof fn lemma_uuids_known_from_the_start(
    run: Runner,
    library: LibraryView,
    a: AnswersView,
)
    requires
        a.luks_uuid is None,
    ensures
        identified(InstallerView::fresh(run, library, a)),
        run.dry_run ==> {
            let s = InstallerView::fresh(run, library, a);
            known(s, Slot::Esp) && known(s, Slot::Boot) && known(s, Slot::Root)
        },
{
    reveal_strlit("dry-run-uuid-for-");
    let s = InstallerView::fresh(run, library, a);
    lemma_luks_is_asked_first(s, 0);
    lemma_step_tasks_depend(s, 0);
}

/// The configuration that is written unlocks an encrypted root exactly when the
/// disk is encrypted: the container's UUID is in the answers by then, and is
/// not when there is no container.
pub proof fn lemma_configuration_fits_the_disk(s: InstallerView)
    requires
        s.well_formed(),
        identified(s),
        s.at == 4,
        s.failure is None,
    ensures
        s.answers.encrypt <==> s.answers.luks_uuid is Some,
        s.layout.root_uuid.len() > 0,
{
}

/// Whether what is left to do is the end of the step's plan: what came before
/// it is done, in order and with nothing skipped.
pub open spec fn on_plan(s: InstallerView) -> bool {
    let plan = step_tasks(s, s.at);
    s.failure is None ==> s.todo.len() <= plan.len() && s.todo == plan.skip(
        plan.len() - s.todo.len(),
    )
}

proof fn lemma_questions_have_their_steps(s: InstallerView, at: int, k: int)
    requires
        0 <= k < step_tasks(s, at).len(),
    ensures
        step_tasks(s, at)[k] is Identify ==> at == 0 || at == 1,
        step_tasks(s, at)[k] is Locate ==> at == 6,
{
    if at == 8 || at == 9 {
        lemma_enter_asks_nothing(s.deployment, k);
    }
}

#[verifier::rlimit(40)]
proof fn lemma_plan_stands(s: InstallerView, outcome: OutcomeView)
    requires
        s.well_formed(),
        s.expects(outcome),
        on_plan(s),
    ensures
        step_tasks(s.applied(outcome), s.at) == step_tasks(s, s.at),
{
    let mid = s.applied(outcome);
    if s.failure is None && s.todo.len() > 0 {
        let plan = step_tasks(s, s.at);
        let k = plan.len() - s.todo.len();
        assert(s.todo[0] == plan[k]);
        lemma_questions_have_their_steps(s, s.at, k);
        match s.todo[0] {
            TaskView::Identify { slot, device } => {
                assert(mid.layout.esp == s.layout.esp);
                assert(mid.layout.boot == s.layout.boot);
                assert(mid.layout.root == s.layout.root);
                assert(mid.answers.disk == s.answers.disk);
                assert(mid.answers.encrypt == s.answers.encrypt);
                assert(mid.answers.passphrase == s.answers.passphrase);
            },
            TaskView::Locate => {},
            _ => {
                assert(mid.answers == s.answers);
                assert(mid.layout == s.layout);
                assert(mid.deployment == s.deployment);
            },
        }
    }
}

/// The install goes by the plan, from its first step to its last: each task of
/// a step is done in its turn, and a task is left behind only when its outcome
/// is in.
pub proof fn lemma_goes_by_the_plan(s: InstallerView, outcome: OutcomeView)
    requires
        s.well_formed(),
        s.expects(outcome),
        on_plan(s),
    ensures
        on_plan(s.after(outcome)),
        s.after(outcome).at == s.at && s.after(outcome).failure is None ==> s.after(outcome).todo
            == s.todo || s.after(outcome).todo == s.todo.drop_first(),
{
    let mid = s.applied(outcome);
    let plan = step_tasks(s, s.at);
    lemma_plan_stands(s, outcome);
    lemma_applied_keeps_or_drops(s, outcome);
    if s.failure is None && s.todo.len() > 0 {
        assert(plan.skip(plan.len() - s.todo.len()).drop_first() =~= plan.skip(
            plan.len() - (s.todo.len() - 1),
        ));
    }
    assert(on_plan(mid));
    if mid.mounted.len() == 0 && mid.failure is None && mid.todo.len() == 0 && mid.at < COUNT {
        lemma_begins_on_the_plan(mid, mid.at + 1);
    }
}

proof fn lemma_applied_keeps_or_drops(s: InstallerView, outcome: OutcomeView)
    ensures
        s.applied(outcome).at == s.at,
        s.applied(outcome).todo == s.todo || (s.todo.len() > 0 && s.applied(outcome).todo
            == s.todo.drop_first()),
        s.applied(outcome).failure is None ==> s.failure is None,
{
}

proof fn lemma_begins_on_the_plan(s: InstallerView, at: int)
    ensures
        on_plan(s.begun(at)),
        s.begun(at).at == at,
{
    let next = s.begun(at);
    lemma_step_tasks_depend(next, at);
    assert(step_tasks(next, at).skip(0) =~= step_tasks(next, at));
}

/// The install starts with the whole plan of its first step before it.
pub proof fn lemma_starts_on_the_plan(run: Runner, library: LibraryView, a: AnswersView)
    ensures
        on_plan(InstallerView::fresh(run, library, a)),
        InstallerView::fresh(run, library, a).at == 0,
        InstallerView::fresh(run, library, a).failure is None,
{
    let s = InstallerView::fresh(run, library, a);
    lemma_step_tasks_depend(s, 0);
    assert(step_tasks(s, 0).skip(0) =~= step_tasks(s, 0));
}

/// A dry run, however it goes, never comes to a job that changes anything or
/// that even asks.
pub proof fn lemma_dry_run_stays_dry(s: InstallerView, outcome: OutcomeView)
    requires
        s.well_formed(),
        s.dry_run,
        on_plan(s),
    ensures
        touches_nothing(s.job()),
        s.after(outcome).dry_run,
{
    if s.failure is None && s.todo.len() > 0 {
        let plan = step_tasks(s, s.at);
        assert(s.todo[0] == plan[plan.len() - s.todo.len()]);
        lemma_dry_run_touches_nothing(s, s.at, plan.len() - s.todo.len(), Seq::empty());
    } else if s.mounted.len() > 0 {
        lemma_steps_are_named(s, 0);
        lemma_dry_run_touches_nothing(s, 0, 0, s.mounted.last());
    }
}

/// The answers of a dry run: those it was given, with a made-up UUID for the
/// container when there is one, and for the root filesystem from the step on
/// that writes the configuration.
pub open spec fn dry_answers(a: AnswersView, at: int) -> AnswersView {
    AnswersView {
        root_uuid: if at >= 4 {
            plan::made_up_uuid(plan::root_device(a))
        } else {
            a.root_uuid
        },
        luks_uuid: if a.encrypt {
            Some(plan::made_up_uuid(a.disk.partition(3)))
        } else {
            a.luks_uuid
        },
        ..a
    }
}

/// Whether a dry run of some answers has gone well so far.
pub open spec fn going_well(s: InstallerView, library: LibraryView, a: AnswersView) -> bool {
    &&& s.well_formed()
    &&& on_plan(s)
    &&& s.dry_run
    &&& s.failure is None
    &&& s.library == library
    &&& s.layout == plan::blank_layout(a, true)
    &&& s.answers == dry_answers(a, s.at)
}

proof fn lemma_dry_tasks(s: InstallerView)
    requires
        s.well_formed(),
        on_plan(s),
        s.dry_run,
        s.failure is None,
        s.todo.len() > 0,
    ensures
        s.todo[0] is Run || s.todo[0] is Write,
        !starts(s.todo[0], true),
{
    let tasks = step_tasks(s, s.at);
    let k = tasks.len() - s.todo.len();
    assert(s.todo[0] == tasks[k]);
    lemma_none_asks(s, s.at);
    reveal_strlit("lsblk");
    reveal_strlit("blkid");
    reveal_strlit("findmnt");
    reveal_strlit("localectl");
}

/// A dry run of a configuration that the library has the modules for cannot
/// fail, whatever is reported of the things that were not started.
pub proof fn lemma_dry_run_cannot_fail(
    s: InstallerView,
    outcome: OutcomeView,
    library: LibraryView,
    a: AnswersView,
)
    requires
        going_well(s, library, a),
        absent_module(library, a) is None,
        s.expects(outcome),
    ensures
        going_well(s.after(outcome), library, a),
{
    lemma_steps_follow_each_other(s, outcome);
    lemma_goes_by_the_plan(s, outcome);
    if s.todo.len() > 0 {
        lemma_dry_tasks(s);
    }
    let mid = s.applied(outcome);
    assert(mid.failure is None);
    assert(mid.answers == s.answers && mid.layout == s.layout && mid.library == library);
    if mid.mounted.len() == 0 && mid.todo.len() == 0 && mid.at < COUNT {
        lemma_next_step_goes_well(mid, library, a);
    }
}

proof fn lemma_next_step_goes_well(s: InstallerView, library: LibraryView, a: AnswersView)
    requires
        s.failure is None,
        s.library == library,
        s.layout == plan::blank_layout(a, true),
        s.answers == dry_answers(a, s.at),
        absent_module(library, a) is None,
    ensures
        s.begun(s.at + 1).failure is None,
        s.begun(s.at + 1).answers == dry_answers(a, s.at + 1),
        s.begun(s.at + 1).layout == s.layout,
        s.begun(s.at + 1).library == library,
        s.begun(s.at + 1).dry_run == s.dry_run,
{
    let at = s.at + 1;
    let answers = if at == 4 {
        AnswersView { root_uuid: s.layout.root_uuid, ..s.answers }
    } else {
        s.answers
    };
    assert(answers =~= dry_answers(a, at));
    assert(absent_module(library, answers) == absent_module(library, a));
}

/// The install after `n` jobs that all went well.
pub open spec fn played(s: InstallerView, n: nat) -> InstallerView
    decreases n,
{
    if n == 0 {
        s
    } else {
        played(s.after(OutcomeView::Done(None)), (n - 1) as nat)
    }
}

proof fn lemma_plays_out(s: InstallerView, library: LibraryView, a: AnswersView) -> (n: nat)
    requires
        going_well(s, library, a),
        absent_module(library, a) is None,
    ensures
        going_well(played(s, n), library, a),
        played(s, n).job() is Finished,
    decreases left(s).0, left(s).1, left(s).2,
{
    if s.current() is None {
        assert(played(s, 0) == s);
        0
    } else {
        let outcome = OutcomeView::Done(None);
        if s.todo.len() > 0 {
            lemma_dry_tasks(s);
        }
        assert(s.expects(outcome));
        lemma_every_outcome_is_progress(s, outcome);
        lemma_dry_run_cannot_fail(s, outcome, library, a);
        let n = lemma_plays_out(s.after(outcome), library, a);
        assert(played(s, n + 1) == played(s.after(outcome), n));
        n + 1
    }
}

/// A dry run ends well: for every configuration that the library has the modules
/// for, it goes through all its steps and is finished, and the answers are those
/// it was given but for the made-up UUIDs.
pub proof fn lemma_dry_run_ends_well(run: Runner, library: LibraryView, a: AnswersView)
    requires
        run.dry_run,
        absent_module(library, a) is None,
    ensures
        exists|n: nat|
            {
                let end = #[trigger] played(InstallerView::fresh(run, library, a), n);
                &&& end.job() is Finished
                &&& end.failure is None
                &&& end.at == COUNT
                &&& end.answers == dry_answers(a, COUNT as int)
            },
{
    let s = InstallerView::fresh(run, library, a);
    lemma_dry_run_starts_well(run, library, a);
    let n = lemma_plays_out(s, library, a);
    let end = played(s, n);
    assert(end.job() is Finished && end.failure is None);
    lemma_mounts_are_undone(end);
}

proof fn lemma_starts_in_order(run: Runner, library: LibraryView, a: AnswersView)
    ensures
        InstallerView::fresh(run, library, a).well_formed(),
{
    let s = InstallerView::fresh(run, library, a);
    lemma_steps_are_named(s, 0);
    lemma_step_tasks_depend(s, 0);
    assert(s.todo == step_tasks(s, 0));
}

proof fn lemma_dry_run_starts_well(run: Runner, library: LibraryView, a: AnswersView)
    requires
        run.dry_run,
    ensures
        going_well(InstallerView::fresh(run, library, a), library, a),
{
    let s = InstallerView::fresh(run, library, a);
    lemma_starts_on_the_plan(run, library, a);
    lemma_starts_in_order(run, library, a);
    assert(s.answers =~= dry_answers(a, 0));
    assert(s.layout == plan::blank_layout(a, true));
}

// ---------------------------------------------------------------------------
// What an outcome comes to
// ---------------------------------------------------------------------------

/// A command that has to succeed and fails ends the install where it is: the
/// failure is that very one, the step is the same, and of the step nothing more
/// is done. A file that cannot be written does the same.
pub proof fn lemma_failures_count(s: InstallerView, e: FailedView)
    requires
        s.well_formed(),
        !s.dry_run,
        s.failure is None,
        s.todo.len() > 0,
        (s.todo[0] is Write || (s.todo[0] is Run && s.todo[0]->policy == PolicyView::Abort)),
    ensures
        ({
            let next = s.after(OutcomeView::Done(Some(e)));
            &&& next.failure == Some(e)
            &&& next.at == s.at
            &&& next.mounted == s.mounted
            &&& next.answers == s.answers && next.layout == s.layout && next.deployment
                == s.deployment
            &&& s.mounted.len() == 0 ==> next.job() is Failed && next.progress.failed
            &&& s.mounted.len() > 0 ==> next.current() == Some(
                plan::unmount_task(s.mounted.last()),
            )
        }),
{
}

/// A command that may fail and does is passed over, with its explanation said
/// when it has one; and so the install goes on as if it had succeeded.
pub proof fn lemma_tolerated_failures_do_not_count(s: InstallerView, e: FailedView)
    requires
        s.well_formed(),
        !s.dry_run,
        s.failure is None,
        s.todo.len() > 0,
        s.todo[0] is Run,
        s.todo[0]->policy != PolicyView::Abort,
        s.todo[0]->binds is None,
    ensures
        ({
            let failed = s.applied(OutcomeView::Done(Some(e)));
            let went_well = s.applied(OutcomeView::Done(None));
            &&& failed.failure is None
            &&& failed == (InstallerView { progress: failed.progress, ..went_well })
            &&& went_well == (InstallerView { todo: s.todo.skip(1), ..s })
            &&& s.todo[0]->policy == PolicyView::Ignore ==> failed == went_well
            &&& s.todo[0]->policy matches PolicyView::Explain { line } ==> failed.progress.tail.len()
                > 0 && failed.progress.tail.last() == line
        }),
{
    assert(s.todo.drop_first() =~= s.todo.skip(1));
}

/// What succeeds is done, and leads to what comes after it: a mount that is to
/// be undone is noted, after those that came before it, and nothing else
/// changes.
pub proof fn lemma_successes_lead_on(s: InstallerView)
    requires
        s.well_formed(),
        s.failure is None,
        s.todo.len() > 0,
        s.todo[0] is Run || s.todo[0] is Write,
    ensures
        ({
            let next = s.applied(OutcomeView::Done(None));
            &&& next.todo == s.todo.skip(1)
            &&& next == (InstallerView { todo: next.todo, mounted: next.mounted, ..s })
            &&& s.todo[0] is Run && s.todo[0]->binds is Some ==> next.mounted == s.mounted.push(
                s.todo[0]->binds->Some_0,
            )
            &&& s.todo[0] is Write || s.todo[0]->binds is None ==> next.mounted == s.mounted
        }),
{
    assert(s.todo.drop_first() =~= s.todo.skip(1));
}

/// A UUID that was found becomes that of what it was asked for, and of nothing
/// else, without white space around it; one that could not be asked for, or
/// that is empty, ends the install.
pub proof fn lemma_uuids_go_where_they_belong(
    s: InstallerView,
    slot: Slot,
    device: Text,
    got: Result<Text, FailedView>,
)
    requires
        s.well_formed(),
        s.failure is None,
        s.todo.len() > 0,
        s.todo[0] == (TaskView::Identify { slot, device }),
    ensures
        ({
            let next = s.applied(OutcomeView::Answered(got));
            &&& got matches Err(e) ==> next == (InstallerView { failure: Some(e), ..s })
            &&& got matches Ok(t) ==> (text::trim(t).len() == 0 <==> next.failure is Some)
            &&& got matches Ok(t) ==> (text::trim(t).len() > 0 ==> {
                let id = text::trim(t);
                &&& next.todo == s.todo.skip(1)
                &&& next.mounted == s.mounted && next.deployment == s.deployment && next.at == s.at
                &&& slot == Slot::Esp ==> next.answers == s.answers && next.layout == (LayoutView {
                    esp_uuid: id,
                    ..s.layout
                })
                &&& slot == Slot::Boot ==> next.answers == s.answers && next.layout
                    == (LayoutView { boot_uuid: id, ..s.layout })
                &&& slot == Slot::Root ==> next.answers == s.answers && next.layout
                    == (LayoutView { root_uuid: id, ..s.layout })
                &&& slot == Slot::Luks ==> next.layout == s.layout && next.answers == (AnswersView {
                    luks_uuid: Some(id),
                    ..s.answers
                })
            })
        }),
{
    assert(s.todo.drop_first() =~= s.todo.skip(1));
}

/// The deployment is known exactly when one directory was found, and is that
/// one; none, several, or no way to look end the install. A dry run looks for
/// none.
pub proof fn lemma_one_deployment_or_none(
    sysroot: Text,
    found: Result<Seq<Text>, Text>,
    s: InstallerView,
)
    requires
        s.well_formed(),
        s.failure is None,
        s.todo.len() > 0,
        s.todo[0] == TaskView::Locate,
        !s.dry_run,
    ensures
        located(sysroot, false, found) is Ok <==> (found matches Ok(list) && list.len() == 1),
        located(sysroot, false, found) matches Ok(d) ==> (found matches Ok(list) && d == list[0]),
        located(sysroot, false, found) matches Err(e) ==> e.what == "locating the deployment"@
            && e.code is None && !e.signal && e.tail.len() == 1,
        found matches Err(e) ==> (located(sysroot, false, found) matches Err(f) && text::begins(
            f.tail[0],
            "cannot read "@,
        )),
        ({
            let next = s.applied(OutcomeView::Listed(found));
            &&& found matches Ok(list) ==> (list.len() == 1 ==> next == (InstallerView {
                deployment: list[0],
                todo: s.todo.skip(1),
                ..s
            }))
            &&& !(found matches Ok(list) && list.len() == 1) ==> next.failure is Some
                && next.deployment == s.deployment
        }),
{
    assert(s.todo.drop_first() =~= s.todo.skip(1));
    let at = deployments(sysroot);
    if let Err(e) = found {
        let line = "cannot read "@ + at + ": "@ + e;
        assert(line.subrange(0, "cannot read "@.len() as int) =~= "cannot read "@);
    }
}

/// Deployments are looked for where libostree writes them.
pub proof fn lemma_where_deployments_are()
    ensures
        deployments("/mnt"@) == "/mnt/ostree/deploy/kiln/deploy"@,
{
    reveal_strlit("/mnt");
    reveal_strlit("/");
    reveal_strlit("ostree/deploy");
    reveal_strlit("kiln");
    reveal_strlit("deploy");
    reveal_strlit("/mnt/ostree/deploy/kiln/deploy");
    let one = path::under("/mnt"@, "ostree/deploy"@);
    assert(one =~= "/mnt"@ + "/"@ + "ostree/deploy"@);
    let two = path::under(one, STATEROOT@);
    assert(two =~= one + "/"@ + "kiln"@);
    assert(deployments("/mnt"@) =~= two + "/"@ + "deploy"@);
    assert(deployments("/mnt"@) =~= "/mnt/ostree/deploy/kiln/deploy"@);
}

/// A job is its task and nothing else: the very command with the very stdin, the
/// very file, the question for the very device, or the place of deployments.
pub proof fn lemma_jobs_are_their_tasks(task: TaskView, dry_run: bool)
    ensures
        task matches TaskView::Run { what, argv, stdin, policy, binds } ==> (job_for(
            task,
            dry_run,
        ) matches JobView::Run(x) && x.what == what && x.argv == argv && x.stdin == stdin
            && x.cwd is None && (!dry_run ==> x.executes)),
        task matches TaskView::Write { at, content } ==> (job_for(
            task,
            dry_run,
        ) matches JobView::Write(w) && w.at == at && w.content == content && (w.executes <==>
            !dry_run)),
        task matches TaskView::Identify { slot, device } ==> (job_for(
            task,
            dry_run,
        ) matches JobView::Ask { argv } && (slot == Slot::Luks ==> argv == seq![
            "cryptsetup"@,
            "luksUUID"@,
            device,
        ]) && (slot != Slot::Luks ==> argv == seq![
            "blkid"@,
            "-s"@,
            "UUID"@,
            "-o"@,
            "value"@,
            device,
        ])),
        task == TaskView::Locate ==> job_for(task, dry_run) == (JobView::List {
            dir: deployments("/mnt"@),
        }),
{
}

/// The steps are what their names say, one after the other: the disk is
/// partitioned, formatted and mounted, Kiln's storage set up, the configuration
/// written, the image built and deployed, the deployment's files written, the
/// bootloader installed, the accounts made, and everything unmounted.
pub proof fn lemma_steps_are_what_they_are_called(s: InstallerView)
    ensures
        step_names() == seq![
            "partition"@,
            "format"@,
            "mount"@,
            "sysroot"@,
            "configure"@,
            "build"@,
            "deploy"@,
            "etc"@,
            "bootloader"@,
            "accounts"@,
            "finish"@,
        ],
        plan::commands(step_tasks(s, 0)[0], seq!["wipefs"@, "--all"@, s.answers.disk.path]),
        plan::commands(
            step_tasks(s, 1)[2],
            seq!["mkfs.ext4"@, "-F"@, "-L"@, "kiln-root"@, s.layout.root],
        ),
        plan::commands(step_tasks(s, 2)[4], seq!["mount"@, s.layout.root, "/mnt"@]),
        plan::commands(step_tasks(s, 3)[0], seq!["kiln"@, "sysroot"@, "init"@, "/mnt"@]),
        step_tasks(s, 4).len() == 1 && (step_tasks(s, 4)[0] matches TaskView::Write { at, content }
            && content == config::configuration(s.answers)),
        step_tasks(s, 5).len() == 1 && step_tasks(s, 5)[0]->what == "kiln build"@,
        plan::commands(
            step_tasks(s, 6)[0],
            seq!["kiln"@, "--sysroot"@, "/mnt"@, "deploy"@, "1"@],
        ),
        step_tasks(s, 7)[0] is Write && step_tasks(s, 7)[0]->content == plan::fstab(s.layout),
        step_tasks(s, 8) == plan::enter_tasks(s.deployment) + plan::grub_tasks(s.deployment),
        step_tasks(s, 9) == plan::enter_tasks(s.deployment) + plan::account_tasks(
            s.deployment,
            s.answers,
        ),
        plan::commands(step_tasks(s, 10)[0], seq!["umount"@, "--recursive"@, "/mnt"@]),
        step_tasks(s, 0) == plan::partition_tasks(s.answers, s.dry_run),
        step_tasks(s, 1) == plan::format_tasks(s.layout, s.dry_run),
        step_tasks(s, 2) == plan::mount_tasks(s.layout),
        step_tasks(s, 3) == plan::sysroot_tasks(),
        step_tasks(s, 4) == plan::configure_tasks(s.answers),
        step_tasks(s, 5) == plan::build_tasks(s.library.root),
        step_tasks(s, 6) == plan::deploy_tasks(s.dry_run),
        step_tasks(s, 7) == plan::etc_tasks(s.deployment, s.layout),
        step_tasks(s, 10) == plan::finish_tasks(s.answers),
{
    assert(step_names() =~= seq![
        "partition"@,
        "format"@,
        "mount"@,
        "sysroot"@,
        "configure"@,
        "build"@,
        "deploy"@,
        "etc"@,
        "bootloader"@,
        "accounts"@,
        "finish"@,
    ]);
    plan::lemma_only_the_chosen_disk_is_partitioned(s.answers, s.dry_run);
    plan::lemma_filesystems_are_made(s.layout, s.dry_run);
    plan::lemma_mounts_go_from_the_root_down(s.layout);
    plan::lemma_what_kiln_is_told(s.library.root, s.answers, s.dry_run);
    plan::lemma_the_end_unmounts_and_closes(s.answers);
}

/// The install starts with the answers, the library and the log it was given,
/// at the first step, with nothing done and nothing mounted, and the partitions
/// of the chosen disk before it.
pub proof fn lemma_starts_from_the_answers(run: Runner, library: LibraryView, a: AnswersView)
    ensures
        ({
            let s = InstallerView::fresh(run, library, a);
            &&& s.dry_run == run.dry_run && s.logging == run.logging && s.library == library
            &&& s.at == 0 && s.mounted.len() == 0 && s.failure is None && !s.progress.failed
            &&& s.answers == (AnswersView { luks_uuid: s.answers.luks_uuid, ..a })
            &&& !run.dry_run || !a.encrypt ==> s.answers == a
            &&& s.layout == plan::blank_layout(a, run.dry_run)
            &&& s.progress.at == 0 && s.progress.detail == a.disk.path && s.progress.tail.len() == 0
            &&& s.todo == plan::partition_tasks(s.answers, run.dry_run)
        }),
{
}

/// A module that the library does not have ends the install before the
/// configuration is written, and only that does.
pub proof fn lemma_absent_modules_end_the_install(s: InstallerView)
    requires
        s.failure is None,
    ensures
        s.begun(4).failure is Some <==> exists|m: Text|
            #[trigger] (seq![s.answers.profile] + s.answers.modules).contains(m) && !s.library.has(m),
        s.begun(4).failure is Some ==> s.begun(4).todo.len() == 0,
        s.begun(4).answers.root_uuid == s.layout.root_uuid,
{
    let all = seq![s.answers.profile] + s.answers.modules;
    lemma_first_absent(s.library, all);
    lemma_absent_is_absent(s.library, all);
    if let Some(m) = first_absent(s.library, all) {
        assert(all.contains(m));
    }
}

proof fn lemma_absent_is_absent(library: LibraryView, modules: Seq<Text>)
    ensures
        first_absent(library, modules) matches Some(m) ==> modules.contains(m) && !library.has(m),
    decreases modules.len(),
{
    if modules.len() > 0 {
        if library.has(modules[0]) {
            let rest = modules.drop_first();
            lemma_absent_is_absent(library, rest);
            if let Some(m) = first_absent(library, rest) {
                let k = choose|k: int| 0 <= k < rest.len() && rest[k] == m;
                assert(modules[k + 1] == m);
            }
        } else {
            assert(modules[0] == first_absent(library, modules)->Some_0);
        }
    }
}

/// Whether what a task is called is not the build.
spec fn not_the_build(task: TaskView) -> bool {
    task matches TaskView::Run { what, argv, stdin, policy, binds } ==> what.len() > 5 && (what[0]
        != 'k' || what[5] != 'b') || (what.len() <= 5 && what.len() > 0)
}

spec fn none_is_the_build(tasks: Seq<TaskView>) -> bool {
    forall|k: int| 0 <= k < tasks.len() ==> not_the_build(#[trigger] tasks[k])
}

proof fn lemma_none_of_both_is_the_build(a: Seq<TaskView>, b: Seq<TaskView>)
    requires
        none_is_the_build(a),
        none_is_the_build(b),
    ensures
        none_is_the_build(a + b),
{
    let both = a + b;
    assert forall|k: int| 0 <= k < both.len() implies not_the_build(#[trigger] both[k]) by {
        if k < a.len() {
            assert(both[k] == a[k]);
        } else {
            assert(both[k] == b[k - a.len()]);
        }
    }
}

proof fn lemma_disk_steps_are_not_the_build(s: InstallerView)
    ensures
        none_is_the_build(step_tasks(s, 0)),
        none_is_the_build(step_tasks(s, 1)),
        none_is_the_build(step_tasks(s, 2)),
{
    reveal_strlit("wiping signatures");
    reveal_strlit("zapping the partition table");
    reveal_strlit("creating partitions");
    reveal_strlit("rereading the partition table");
    reveal_strlit("waiting for udev");
    reveal_strlit("cryptsetup luksFormat");
    reveal_strlit("cryptsetup open");
    reveal_strlit("mkfs.fat");
    reveal_strlit("mkfs.ext4 /boot");
    reveal_strlit("mkfs.ext4 /");
    reveal_strlit("umount");
    reveal_strlit("mkdir");
    reveal_strlit("mount /");
    reveal_strlit("mkdir /boot");
    reveal_strlit("mount /boot");
    reveal_strlit("mkdir /boot/efi");
    reveal_strlit("mount /boot/efi");
    assert(none_is_the_build(plan::container_tasks(s.answers, s.dry_run)));
}

proof fn lemma_kiln_steps_are_not_the_build(s: InstallerView)
    ensures
        none_is_the_build(step_tasks(s, 3)),
        none_is_the_build(step_tasks(s, 4)),
        none_is_the_build(step_tasks(s, 6)),
        none_is_the_build(step_tasks(s, 7)),
        none_is_the_build(step_tasks(s, 10)),
{
    reveal_strlit("kiln sysroot init");
    reveal_strlit("kiln deploy 1");
    reveal_strlit("mkdir");
    reveal_strlit("cp /etc/kiln");
    reveal_strlit("rm the staged copy");
    reveal_strlit("rmdir");
    reveal_strlit("umount");
    reveal_strlit("cryptsetup close");
}

proof fn lemma_entering_is_not_the_build(dep: Text)
    ensures
        none_is_the_build(plan::enter_tasks(dep)),
{
    reveal_strlit("mkdir");
    reveal_strlit("bind mount");
}

proof fn lemma_chroot_steps_are_not_the_build(s: InstallerView)
    ensures
        none_is_the_build(step_tasks(s, 8)),
        none_is_the_build(step_tasks(s, 9)),
{
    lemma_entering_is_not_the_build(s.deployment);
    reveal_strlit("grub-install --removable");
    reveal_strlit("grub-install");
    reveal_strlit("grub-mkconfig");
    reveal_strlit("mv grub.cfg into the loader directory");
    reveal_strlit("link grub.cfg to the loader directory");
    reveal_strlit("seeding /var");
    reveal_strlit("systemd-firstboot");
    reveal_strlit("useradd");
    reveal_strlit("chpasswd");
    reveal_strlit("locking root");
    reveal_strlit("chpasswd root");
    assert(none_is_the_build(plan::grub_tasks(s.deployment)));
    assert(none_is_the_build(plan::account_tasks(s.deployment, s.answers)));
    lemma_none_of_both_is_the_build(
        plan::enter_tasks(s.deployment),
        plan::grub_tasks(s.deployment),
    );
    lemma_none_of_both_is_the_build(
        plan::enter_tasks(s.deployment),
        plan::account_tasks(s.deployment, s.answers),
    );
}

/// A command is called the build exactly in the step that builds, so a script
/// can tell by the exit code whether it was the build that failed.
pub proof fn lemma_only_the_build_is_called_so(s: InstallerView, at: int, k: int)
    requires
        0 <= at < COUNT,
        0 <= k < step_tasks(s, at).len(),
    ensures
        step_tasks(s, at)[k] matches TaskView::Run { what, argv, stdin, policy, binds } ==> (
        text::begins(what, "kiln build"@) <==> at == 5),
{
    reveal_strlit("kiln build");
    lemma_disk_steps_are_not_the_build(s);
    lemma_kiln_steps_are_not_the_build(s);
    lemma_chroot_steps_are_not_the_build(s);
    let task = step_tasks(s, at)[k];
    if at != 5 {
        assert(none_is_the_build(step_tasks(s, at)));
        assert(not_the_build(task));
        if let TaskView::Run { what, argv, stdin, policy, binds } = task {
            if text::begins(what, "kiln build"@) {
                let cut = what.subrange(0, 10);
                assert(cut[0] == 'k' && cut[5] == 'b');
            }
        }
    } else {
        assert("kiln build"@.subrange(0, 10) =~= "kiln build"@);
    }
}

spec fn mounts_what_it_binds(task: TaskView) -> bool {
    task matches TaskView::Run { what, argv, stdin, policy, binds } ==> (binds matches Some(to)
        ==> argv.len() == 4 && argv[0] == "mount"@ && argv[3] == to)
}

spec fn all_mount_what_they_bind(tasks: Seq<TaskView>) -> bool {
    forall|k: int| 0 <= k < tasks.len() ==> mounts_what_it_binds(#[trigger] tasks[k])
}

spec fn binds_nothing(task: TaskView) -> bool {
    task matches TaskView::Run { what, argv, stdin, policy, binds } ==> binds is None
}

spec fn none_binds(tasks: Seq<TaskView>) -> bool {
    forall|k: int| 0 <= k < tasks.len() ==> binds_nothing(#[trigger] tasks[k])
}

proof fn lemma_disk_steps_bind_nothing(s: InstallerView)
    ensures
        none_binds(step_tasks(s, 0)),
        none_binds(step_tasks(s, 1)),
        none_binds(step_tasks(s, 2)),
{
    assert(none_binds(plan::container_tasks(s.answers, s.dry_run)));
}

proof fn lemma_kiln_steps_bind_nothing(s: InstallerView)
    ensures
        none_binds(step_tasks(s, 3)),
        none_binds(step_tasks(s, 4)),
        none_binds(step_tasks(s, 5)),
        none_binds(step_tasks(s, 6)),
{
}

proof fn lemma_last_steps_bind_nothing(s: InstallerView)
    ensures
        none_binds(step_tasks(s, 7)),
        none_binds(step_tasks(s, 10)),
{
}

proof fn lemma_chroot_work_binds_nothing(dep: Text, a: AnswersView)
    ensures
        none_binds(plan::grub_tasks(dep)),
        none_binds(plan::account_tasks(dep, a)),
{
}

proof fn lemma_entering_mounts_what_it_binds(dep: Text)
    ensures
        all_mount_what_they_bind(plan::enter_tasks(dep)),
{
}

proof fn lemma_then_nothing_is_bound(a: Seq<TaskView>, b: Seq<TaskView>)
    requires
        all_mount_what_they_bind(a),
        none_binds(b),
    ensures
        all_mount_what_they_bind(a + b),
{
    let both = a + b;
    assert forall|k: int| 0 <= k < both.len() implies mounts_what_it_binds(
        #[trigger] both[k],
    ) by {
        if k < a.len() {
            assert(both[k] == a[k]);
        } else {
            assert(both[k] == b[k - a.len()]);
            assert(binds_nothing(b[k - a.len()]));
        }
    }
}

proof fn lemma_chroot_steps_mount_what_they_bind(s: InstallerView)
    ensures
        all_mount_what_they_bind(step_tasks(s, 8)),
        all_mount_what_they_bind(step_tasks(s, 9)),
{
    lemma_entering_mounts_what_it_binds(s.deployment);
    lemma_chroot_work_binds_nothing(s.deployment, s.answers);
    lemma_then_nothing_is_bound(plan::enter_tasks(s.deployment), plan::grub_tasks(s.deployment));
    lemma_then_nothing_is_bound(
        plan::enter_tasks(s.deployment),
        plan::account_tasks(s.deployment, s.answers),
    );
}

spec fn undone_rightly(s: InstallerView, at: int) -> bool {
    if at == 8 || at == 9 {
        all_mount_what_they_bind(step_tasks(s, at))
    } else {
        none_binds(step_tasks(s, at))
    }
}

proof fn lemma_every_step_is_undone_rightly(s: InstallerView, at: int)
    requires
        0 <= at < COUNT,
    ensures
        undone_rightly(s, at),
{
    lemma_disk_steps_bind_nothing(s);
    lemma_kiln_steps_bind_nothing(s);
    lemma_last_steps_bind_nothing(s);
    lemma_chroot_steps_mount_what_they_bind(s);
    if at == 11 {
        assert(step_tasks(s, at).len() == 0);
    }
}

/// What is unmounted at the end of a step is what the step mounted: only a mount
/// is noted to be undone, by the place it was mounted on.
pub proof fn lemma_only_mounts_are_undone(s: InstallerView, at: int, k: int)
    requires
        0 <= at < COUNT,
        0 <= k < step_tasks(s, at).len(),
    ensures
        step_tasks(s, at)[k] matches TaskView::Run { what, argv, stdin, policy, binds } ==> (
        binds matches Some(to) ==> (at == 8 || at == 9) && argv.len() == 4 && argv[0] == "mount"@
            && argv[3] == to),
{
    lemma_every_step_is_undone_rightly(s, at);
    let tasks = step_tasks(s, at);
    if at == 8 || at == 9 {
        assert(mounts_what_it_binds(tasks[k]));
    } else {
        assert(binds_nothing(tasks[k]));
    }
}

/// What is shown beside a step is about that step.
pub proof fn lemma_details(a: AnswersView)
    ensures
        detail(0, a) == a.disk.path,
        detail(2, a) == "/mnt"@,
        detail(9, a) == a.username,
        detail(11, a).len() == 0,
{
}

/// As long as nothing went wrong the job is the next task of the step; and the
/// install is over only when there is none left and nothing to unmount.
pub proof fn lemma_next_job_is_the_next_task(s: InstallerView)
    requires
        s.well_formed(),
    ensures
        s.failure is None && s.todo.len() > 0 ==> s.job() == job_for(s.todo[0], s.dry_run),
        s.job() is Finished || s.job() is Failed <==> s.mounted.len() == 0 && (s.failure is Some
            || s.todo.len() == 0),
{
}

/// What the install is refused for is told by name: the module that is absent and
/// the library it is absent from.
pub proof fn lemma_refusals_name_the_module(library: LibraryView, module: Text)
    ensures
        refusal(library, module).tail.len() == 1,
        text::occurs(refusal(library, module).tail[0], module),
        text::occurs(refusal(library, module).tail[0], library.root),
        refusal(library, module).code is None && !refusal(library, module).signal,
{
    let said = refusal(library, module).tail[0];
    text::lemma_occurs_between("no "@, module, " in the module library at "@ + library.root);
    assert(said =~= "no "@ + module + (" in the module library at "@ + library.root));
    text::lemma_occurs_between(
        "no "@ + module + " in the module library at "@,
        library.root,
        Seq::empty(),
    );
    assert(said =~= "no "@ + module + " in the module library at "@ + library.root
        + Seq::<char>::empty());
}

/// A blank answer is a failure of its own, which names the device; a failed question
/// is passed on as it is; any other answer is taken without the space around it.
pub proof fn lemma_blank_uuids_are_told(slot: Slot, device: Text, got: Result<Text, FailedView>)
    ensures
        got is Err ==> uuid_answer(slot, device, got) == got,
        got matches Ok(out) ==> (text::trim(out).len() == 0 <==> uuid_answer(
            slot,
            device,
            got,
        ) is Err),
        got matches Ok(out) ==> (uuid_answer(slot, device, got) matches Err(e) ==> text::ends(
            e.what,
            device,
        ) && e.tail.len() == 1 && text::ends(e.tail[0], device) && text::occurs_at(
            e.tail[0],
            uuid_question(slot, device)[0],
            0,
        ) && e.code is None && !e.signal),
{
    reveal_strlit("cryptsetup");
    reveal_strlit("cryptsetup luksUUID");
    reveal_strlit("blkid");
    match got {
        Ok(out) => {
            if text::trim(out).len() == 0 {
                let what = "reading the UUID of "@ + device;
                let said = uuid_program(slot) + " printed nothing for "@ + device;
                assert(what.subrange(what.len() - device.len(), what.len() as int) =~= device);
                assert(said.subrange(said.len() - device.len(), said.len() as int) =~= device);
                let program = uuid_question(slot, device)[0];
                assert(said.subrange(0, program.len() as int) =~= program);
            }
        },
        Err(_) => {},
    }
}

} // verus!
