//! What has to be true before a single question is worth asking.
//!
//! Every check here corresponds to a way the install fails late: after the disk
//! has been erased, which is the only point at which failing is expensive.

use vstd::prelude::*;

use crate::catalog;
use crate::path;
use crate::path::below;
use crate::text;
use crate::text::{among, emit, number, split_on, Text};
use crate::tui::{BOLD, DANGER, DIM, RESET};

verus! {

/// Something that keeps the installer from starting, and what to do about it.
pub struct Problem {
    pub what: String,
    pub fix: String,
}

/// What a `Problem` holds, as contracts see it.
#[verifier::ext_equal]
pub struct ProblemView {
    pub what: Text,
    pub fix: Text,
}

impl View for Problem {
    type V = ProblemView;

    open spec fn view(&self) -> ProblemView {
        ProblemView { what: self.what@, fix: self.fix@ }
    }
}

impl DeepView for Problem {
    type V = ProblemView;

    open spec fn deep_view(&self) -> ProblemView {
        self@
    }
}

/// The programs the installer itself runs, and how to get them. Not
/// `grub-install`, `useradd` and the like: those run chrooted into the
/// deployment, so the copies that matter are the image's.
pub const NEEDED: [(&'static str, &'static str); 12] = [
    ("kiln", "pacman -S kiln"),
    ("sgdisk", "pacman -S gptfdisk"),
    ("mkfs.ext4", "pacman -S e2fsprogs"),
    ("mkfs.fat", "pacman -S dosfstools"),
    ("blkid", "pacman -S util-linux"),
    ("lsblk", "pacman -S util-linux"),
    ("mount", "pacman -S util-linux"),
    ("umount", "pacman -S util-linux"),
    ("chroot", "pacman -S coreutils"),
    ("partprobe", "pacman -S parted"),
    ("udevadm", "pacman -S systemd"),
    ("wipefs", "pacman -S util-linux"),
];

// ---------------------------------------------------------------------------
// Programs
// ---------------------------------------------------------------------------

/// Where a program may be, given the directories of `PATH`.
pub open spec fn places(path: Text, program: Text) -> Seq<Text> {
    text::split(path, ':').map_values(|dir: Text| path::under(dir, program))
}

/// The first of some places that is a file.
pub open spec fn first_file(places: Seq<Text>, files: Seq<Text>) -> Option<Text>
    decreases places.len(),
{
    if places.len() == 0 {
        None
    } else if files.contains(places[0]) {
        Some(places[0])
    } else {
        first_file(places.drop_first(), files)
    }
}

/// Where a program may be, given the directories of `PATH`.
pub fn candidates(path: &str, program: &str) -> (out: Vec<String>)
    ensures
        out.deep_view() == places(path@, program@),
{
    let dirs = split_on(path, ':');
    let ghost all = places(path@, program@);
    let mut out: Vec<String> = Vec::new();
    assert(out.deep_view() == all.take(0));
    while out.len() < dirs.len()
        invariant
            dirs.deep_view() == text::split(path@, ':'),
            all == places(path@, program@),
            out@.len() <= dirs@.len(),
            out.deep_view() == all.take(out@.len() as int),
        decreases dirs.len() - out.len(),
    {
        let i: usize = out.len();
        let at = below(dirs[i].as_str(), program);
        assert(all[i as int] == at@);
        assert(all.take(i + 1) == all.take(i as int).push(at@));
        emit(&mut out, at);
    }
    assert(all.take(out@.len() as int) == all);
    out
}

/// The place of a program: the first on `PATH` that is a file. `files` are those
/// of its candidates that are. Without a `PATH` there is none.
pub fn which(path: &Option<String>, program: &str, files: &[String]) -> (out: Option<String>)
    ensures
        out.deep_view() == (match path.deep_view() {
            Some(p) => first_file(places(p, program@), files.deep_view()),
            None => None,
        }),
{
    match path {
        None => None,
        Some(p) => {
            let at = candidates(p.as_str(), program);
            let ghost all = at.deep_view();
            let mut i: usize = 0;
            assert(all.skip(0) == all);
            while i < at.len()
                invariant
                    all == at.deep_view(),
                    all == places(p@, program@),
                    path.deep_view() == Some(p@),
                    i <= at.len(),
                    first_file(all, files.deep_view()) == first_file(
                        all.skip(i as int),
                        files.deep_view(),
                    ),
                decreases at.len() - i,
            {
                let ghost rest = all.skip(i as int);
                assert(rest[0] == at@[i as int]@);
                assert(rest.drop_first() == all.skip(i + 1));
                if among(files, at[i].as_str()) {
                    return Some(at[i].clone());
                }
                i += 1;
            }
            None
        },
    }
}

// ---------------------------------------------------------------------------
// The network
// ---------------------------------------------------------------------------

/// What to do about the network.
#[derive(Debug, Clone, Copy, PartialEq, Eq, Structural)]
pub enum Network {
    /// It is known whether there is one.
    Settled { online: bool },
    /// Let the user connect with `nmtui`, and look again.
    Connect,
}

/// What to do about the network: where NetworkManager is running there is one
/// shot at connecting, unless nothing is going to be installed.
pub open spec fn network_step(online: bool, dry_run: bool, manager: bool, tried: bool) -> Network {
    if online {
        Network::Settled { online: true }
    } else if !dry_run && manager && !tried {
        Network::Connect
    } else {
        Network::Settled { online: false }
    }
}

/// What to do about the network. `manager` is whether NetworkManager is
/// running, and `tried` whether the user has had a shot at connecting.
pub fn network(online: bool, dry_run: bool, manager: bool, tried: bool) -> (out: Network)
    ensures
        out == network_step(online, dry_run, manager, tried),
{
    if online {
        Network::Settled { online: true }
    } else if !dry_run && manager && !tried {
        Network::Connect
    } else {
        Network::Settled { online: false }
    }
}

/// There is one shot at connecting and no second one, and none in a dry run.
pub proof fn lemma_one_shot_at_connecting(online: bool, dry_run: bool, manager: bool)
    ensures
        network_step(online, dry_run, manager, true) == (Network::Settled { online }),
        network_step(online, true, manager, false) == (Network::Settled { online }),
        network_step(true, dry_run, manager, false) == (Network::Settled { online: true }),
{
}

// ---------------------------------------------------------------------------
// The checks
// ---------------------------------------------------------------------------

/// What was found out about the machine.
pub struct Facts {
    /// Whether this runs as root.
    pub root: bool,
    /// Whether the machine booted in UEFI mode.
    pub uefi: bool,
    /// The programs that were found on `PATH`.
    pub programs: Vec<String>,
    /// Whether the smallest profile is in the module library.
    pub library: bool,
    /// Whether names can be resolved.
    pub online: bool,
}

/// What `Facts` hold, as contracts see it.
#[verifier::ext_equal]
pub struct FactsView {
    pub root: bool,
    pub uefi: bool,
    pub programs: Seq<Text>,
    pub library: bool,
    pub online: bool,
}

impl View for Facts {
    type V = FactsView;

    open spec fn view(&self) -> FactsView {
        FactsView {
            root: self.root,
            uefi: self.uefi,
            programs: self.programs.deep_view(),
            library: self.library,
            online: self.online,
        }
    }
}

/// The file that tells whether there is a module library: the configuration
/// names a profile, and that is resolved while `kiln build` runs.
pub open spec fn library_probe(module_root: Text) -> Text {
    path::under(module_root, "profiles/minimal.toml"@)
}

/// The file that tells whether there is a module library.
pub fn library_file(module_root: &str) -> (out: String)
    ensures
        out@ == library_probe(module_root@),
{
    below(module_root, "profiles/minimal.toml")
}

/// One problem, unless all is well.
pub open spec fn unless(fine: bool, what: Text, fix: Text) -> Seq<ProblemView> {
    if fine {
        Seq::empty()
    } else {
        seq![ProblemView { what, fix }]
    }
}

/// The problem of a missing program.
pub open spec fn missing_program(program: Text, fix: Text) -> ProblemView {
    ProblemView { what: "`"@ + program + "` is not on PATH"@, fix }
}

/// The problems of the first `n` programs that are needed.
pub open spec fn missing_programs(programs: Seq<Text>, n: int) -> Seq<ProblemView>
    decreases n,
{
    if n <= 0 {
        Seq::empty()
    } else {
        let front = missing_programs(programs, n - 1);
        if programs.contains(NEEDED@[n - 1].0@) {
            front
        } else {
            front.push(missing_program(NEEDED@[n - 1].0@, NEEDED@[n - 1].1@))
        }
    }
}

/// Everything that keeps the installer from starting.
pub open spec fn problems(module_root: Text, f: FactsView) -> Seq<ProblemView> {
    unless(
        f.root,
        "terracotta-installer is not running as root"@,
        "it partitions a disk and runs a build; run it with sudo"@,
    ) + unless(
        f.uefi,
        "this machine did not boot in UEFI mode"@,
        "Kiln's bootloader arrangement is UEFI-only; switch the firmware out of legacy/CSM mode and boot the installer again"@,
    ) + missing_programs(f.programs, NEEDED@.len() as int) + unless(
        f.library,
        "no Kiln module library at "@ + module_root,
        "install the `kiln` package, or point KILN_MODULE_DIR at a Kiln checkout's ./modules"@,
    ) + unless(
        f.online,
        "no network"@,
        "Kiln resolves packages against real Arch mirrors; connect first (`iwctl`, or plug in a cable) and start again"@,
    )
}

/// Adds one problem, unless all is well.
fn note_unless(out: &mut Vec<Problem>, fine: bool, what: &str, fix: &str)
    ensures
        final(out).deep_view() == old(out).deep_view() + unless(fine, what@, fix@),
{
    let ghost before = out.deep_view();
    if !fine {
        out.push(Problem { what: what.to_owned(), fix: fix.to_owned() });
    }
    assert(out.deep_view() =~= before + unless(fine, what@, fix@));
}

/// Everything that keeps the installer from starting.
pub fn check(module_root: &str, facts: &Facts) -> (out: Vec<Problem>)
    ensures
        out.deep_view() == problems(module_root@, facts@),
{
    let mut out: Vec<Problem> = Vec::new();
    assert(out.deep_view() =~= Seq::<ProblemView>::empty());
    note_unless(
        &mut out,
        facts.root,
        "terracotta-installer is not running as root",
        "it partitions a disk and runs a build; run it with sudo",
    );
    note_unless(
        &mut out,
        facts.uefi,
        "this machine did not boot in UEFI mode",
        "Kiln's bootloader arrangement is UEFI-only; switch the firmware out of legacy/CSM mode and boot the installer again",
    );
    let ghost before = out.deep_view();
    let mut i: usize = 0;
    assert(before + missing_programs(facts@.programs, 0) =~= before);
    while i < NEEDED.len()
        invariant
            i <= NEEDED@.len(),
            out.deep_view() == before + missing_programs(facts@.programs, i as int),
        decreases NEEDED@.len() - i,
    {
        let row = NEEDED[i];
        let ghost so_far = missing_programs(facts@.programs, i as int);
        if !among(facts.programs.as_slice(), row.0) {
            let p = Problem {
                what: "`".to_owned().concat(row.0).concat("` is not on PATH"),
                fix: row.1.to_owned(),
            };
            let ghost was = out.deep_view();
            out.push(p);
            assert(out.deep_view() =~= was.push(p@));
            assert((before + so_far).push(p@) =~= before + so_far.push(p@));
        }
        i += 1;
    }
    note_unless(
        &mut out,
        facts.library,
        "no Kiln module library at ".to_owned().concat(module_root).as_str(),
        "install the `kiln` package, or point KILN_MODULE_DIR at a Kiln checkout's ./modules",
    );
    note_unless(
        &mut out,
        facts.online,
        "no network",
        "Kiln resolves packages against real Arch mirrors; connect first (`iwctl`, or plug in a cable) and start again",
    );
    assert(out.deep_view() =~= problems(module_root@, facts@));
    out
}

/// The installer starts exactly when it runs as root on a UEFI machine with
/// every program, a module library and a network.
pub proof fn lemma_starts_when_all_is_well(module_root: Text, f: FactsView)
    ensures
        problems(module_root, f).len() == 0 <==> {
            &&& f.root
            &&& f.uefi
            &&& f.library
            &&& f.online
            &&& forall|k: int|
                0 <= k < NEEDED@.len() ==> f.programs.contains((#[trigger] NEEDED@[k]).0@)
        },
{
    lemma_missing_programs(f.programs, NEEDED@.len() as int);
}

proof fn lemma_missing_programs(programs: Seq<Text>, n: int)
    requires
        0 <= n <= NEEDED@.len(),
    ensures
        missing_programs(programs, n).len() == 0 <==> forall|k: int|
            0 <= k < n ==> programs.contains((#[trigger] NEEDED@[k]).0@),
    decreases n,
{
    if n > 0 {
        lemma_missing_programs(programs, n - 1);
    }
}

// ---------------------------------------------------------------------------
// Saying so
// ---------------------------------------------------------------------------

/// Whether the problems found keep the installer from starting: all of them do,
/// but a dry run goes on.
pub open spec fn stops(problems: Seq<ProblemView>, dry_run: bool) -> bool {
    problems.len() > 0 && !dry_run
}

/// The lines about some problems.
pub open spec fn problem_lines(problems: Seq<ProblemView>) -> Seq<Text>
    decreases problems.len(),
{
    if problems.len() == 0 {
        Seq::empty()
    } else {
        let p = problems.last();
        problem_lines(problems.drop_last()) + seq![
            "  "@ + DANGER@ + "·"@ + RESET@ + " "@ + BOLD@ + p.what + RESET@,
            "    "@ + DIM@ + p.fix + RESET@,
            Seq::<char>::empty(),
        ]
    }
}

/// What is printed about the problems found.
pub open spec fn report_lines(problems: Seq<ProblemView>, dry_run: bool) -> Seq<Text> {
    if problems.len() == 0 {
        Seq::empty()
    } else if dry_run {
        seq![
            DIM@ + "--dry-run: continuing past "@ + text::decimal(problems.len())
                + " preflight problem(s)."@ + RESET@,
        ]
    } else {
        seq![
            Seq::<char>::empty(),
            BOLD@ + "terracotta-installer cannot start."@ + RESET@,
            Seq::<char>::empty(),
        ] + problem_lines(problems)
    }
}

/// What is printed about the problems found, and whether they keep the installer
/// from starting.
pub fn report(problems: &[Problem], dry_run: bool) -> (out: (Vec<String>, bool))
    ensures
        out.0.deep_view() == report_lines(problems.deep_view(), dry_run),
        out.1 == stops(problems.deep_view(), dry_run),
{
    let ghost all = problems.deep_view();
    assert(all.len() == problems@.len());
    let mut out: Vec<String> = Vec::new();
    assert(out.deep_view() =~= Seq::<Text>::empty());
    if problems.len() == 0 {
        return (out, false);
    }
    if dry_run {
        emit(
            &mut out,
            DIM.to_owned().concat("--dry-run: continuing past ").concat(
                number(problems.len() as u64).as_str(),
            ).concat(" preflight problem(s).").concat(RESET),
        );
        assert(out.deep_view() =~= report_lines(all, dry_run));
        return (out, false);
    }
    emit(&mut out, String::new());
    emit(&mut out, BOLD.to_owned().concat("terracotta-installer cannot start.").concat(RESET));
    emit(&mut out, String::new());
    let ghost head = out.deep_view();
    let mut i: usize = 0;
    assert(head + problem_lines(all.take(0)) =~= head);
    while i < problems.len()
        invariant
            all == problems.deep_view(),
            i <= problems.len(),
            out.deep_view() == head + problem_lines(all.take(i as int)),
        decreases problems.len() - i,
    {
        let p = &problems[i];
        assert(all.take(i + 1).drop_last() == all.take(i as int));
        assert(all.take(i + 1).last() == p@);
        let ghost so_far = problem_lines(all.take(i as int));
        emit(
            &mut out,
            "  ".to_owned().concat(DANGER).concat("·").concat(RESET).concat(" ").concat(
                BOLD,
            ).concat(p.what.as_str()).concat(RESET),
        );
        emit(&mut out, "    ".to_owned().concat(DIM).concat(p.fix.as_str()).concat(RESET));
        emit(&mut out, String::new());
        assert(out.deep_view() =~= head + problem_lines(all.take(i + 1)));
        i += 1;
    }
    assert(all.take(i as int) == all);
    assert(head =~= seq![
        Seq::<char>::empty(),
        BOLD@ + "terracotta-installer cannot start."@ + RESET@,
        Seq::<char>::empty(),
    ]);
    (out, true)
}

/// A program is where it is first found on `PATH`: the place is one of a
/// directory there, it is a file, and no earlier directory has one. It is
/// nowhere exactly when no directory has one.
pub proof fn lemma_first_found_counts(path: Text, program: Text, files: Seq<Text>)
    ensures
        first_file(places(path, program), files) matches Some(at) ==> exists|k: int|
            #![trigger text::split(path, ':')[k]]
            {
                &&& 0 <= k < text::split(path, ':').len()
                &&& at == path::under(text::split(path, ':')[k], program)
                &&& files.contains(at)
                &&& forall|j: int|
                    0 <= j < k ==> !files.contains(
                        path::under(#[trigger] text::split(path, ':')[j], program),
                    )
            },
        first_file(places(path, program), files) is None <==> forall|k: int|
            0 <= k < text::split(path, ':').len() ==> !files.contains(
                path::under(#[trigger] text::split(path, ':')[k], program),
            ),
{
    let dirs = text::split(path, ':');
    let all = places(path, program);
    assert(forall|k: int| 0 <= k < dirs.len() ==> all[k] == path::under(#[trigger] dirs[k], program));
    let k = lemma_first_file(all, files);
    if first_file(all, files) is Some {
        assert(dirs[k] == dirs[k]);
        assert(all[k] == path::under(dirs[k], program));
        assert forall|j: int| 0 <= j < k implies !files.contains(
            path::under(#[trigger] dirs[j], program),
        ) by {
            assert(!files.contains(all[j]));
        }
    } else {
        assert forall|j: int| 0 <= j < dirs.len() implies !files.contains(
            path::under(#[trigger] dirs[j], program),
        ) by {
            assert(!files.contains(all[j]));
        }
    }
}

proof fn lemma_first_file(places: Seq<Text>, files: Seq<Text>) -> (k: int)
    ensures
        first_file(places, files) matches Some(at) ==> 0 <= k < places.len() && places[k] == at
            && files.contains(at) && forall|j: int|
            0 <= j < k ==> !files.contains(#[trigger] places[j]),
        first_file(places, files) is None ==> forall|j: int|
            0 <= j < places.len() ==> !files.contains(#[trigger] places[j]),
    decreases places.len(),
{
    if places.len() == 0 || files.contains(places[0]) {
        0
    } else {
        let rest = places.drop_first();
        let k = lemma_first_file(rest, files);
        assert(forall|j: int| 0 <= j < rest.len() ==> #[trigger] rest[j] == places[j + 1]);
        assert forall|j: int|
            0 <= j < k + 1 && first_file(rest, files) is Some implies !files.contains(
            #[trigger] places[j],
        ) by {
            if j > 0 {
                assert(!files.contains(rest[j - 1]));
            }
        }
        if first_file(rest, files) is None {
            assert forall|j: int| 0 <= j < places.len() implies !files.contains(
                #[trigger] places[j],
            ) by {
                if j > 0 {
                    assert(!files.contains(rest[j - 1]));
                }
            }
        }
        k + 1
    }
}

/// Every requirement that is not met is told, each missing program by its name
/// and with how to get it, and so are root, UEFI, the library and the network.
pub proof fn lemma_every_problem_is_told(module_root: Text, f: FactsView, k: int)
    ensures
        0 <= k < NEEDED@.len() && !f.programs.contains(NEEDED@[k].0@) ==> problems(
            module_root,
            f,
        ).contains(
            ProblemView {
                what: "`"@ + NEEDED@[k].0@ + "` is not on PATH"@,
                fix: NEEDED@[k].1@,
            },
        ),
        !f.root ==> problems(module_root, f)[0].what
            == "terracotta-installer is not running as root"@,
        !f.uefi ==> exists|p: ProblemView| #[trigger]
            problems(module_root, f).contains(p) && p.what
                == "this machine did not boot in UEFI mode"@,
        !f.library ==> exists|p: ProblemView| #[trigger]
            problems(module_root, f).contains(p) && p.what == "no Kiln module library at "@
                + module_root,
        !f.online ==> problems(module_root, f).last().what == "no network"@,
        problems(module_root, f).len() <= 16,
{
    let all = problems(module_root, f);
    let root = unless(
        f.root,
        "terracotta-installer is not running as root"@,
        "it partitions a disk and runs a build; run it with sudo"@,
    );
    let uefi = unless(
        f.uefi,
        "this machine did not boot in UEFI mode"@,
        "Kiln's bootloader arrangement is UEFI-only; switch the firmware out of legacy/CSM mode and boot the installer again"@,
    );
    let programs = missing_programs(f.programs, NEEDED@.len() as int);
    lemma_few_missing(f.programs, NEEDED@.len() as int);
    if !f.uefi {
        let i = root.len() as int;
        assert(all[i] == uefi[0]);
        assert(all.contains(all[i]));
    }
    if !f.library {
        let i = (root.len() + uefi.len() + programs.len()) as int;
        assert(all[i].what == "no Kiln module library at "@ + module_root);
        assert(all.contains(all[i]));
    }
    if 0 <= k < NEEDED@.len() && !f.programs.contains(NEEDED@[k].0@) {
        let p = missing_program(NEEDED@[k].0@, NEEDED@[k].1@);
        lemma_missing_is_told(f.programs, NEEDED@.len() as int, k);
        let j = choose|j: int| 0 <= j < programs.len() && programs[j] == p;
        let i = (root.len() + uefi.len()) as int + j;
        assert(all[i] == p);
    }
}

proof fn lemma_few_missing(programs: Seq<Text>, n: int)
    requires
        0 <= n,
    ensures
        missing_programs(programs, n).len() <= n,
    decreases n,
{
    if n > 0 {
        lemma_few_missing(programs, n - 1);
    }
}

proof fn lemma_missing_is_told(programs: Seq<Text>, n: int, k: int)
    requires
        0 <= k < n <= NEEDED@.len(),
        !programs.contains(NEEDED@[k].0@),
    ensures
        missing_programs(programs, n).contains(missing_program(NEEDED@[k].0@, NEEDED@[k].1@)),
    decreases n,
{
    let p = missing_program(NEEDED@[k].0@, NEEDED@[k].1@);
    let all = missing_programs(programs, n);
    let front = missing_programs(programs, n - 1);
    if k < n - 1 {
        lemma_missing_is_told(programs, n - 1, k);
        let j = choose|j: int| 0 <= j < front.len() && front[j] == p;
        assert(all[j] == p);
    } else {
        assert(all[front.len() as int] == p);
    }
}

/// Any problem stops a real run and none stops a dry one; a real run prints each
/// problem and how to fix it, in order, and a dry one how many there are.
pub proof fn lemma_problems_stop_a_real_run(problems: Seq<ProblemView>, dry_run: bool, k: int)
    ensures
        stops(problems, dry_run) <==> problems.len() > 0 && !dry_run,
        problems.len() == 0 ==> report_lines(problems, dry_run).len() == 0,
        problems.len() > 0 && dry_run ==> report_lines(problems, dry_run).len() == 1
            && text::occurs(report_lines(problems, dry_run)[0], text::decimal(problems.len())),
        !dry_run && 0 <= k < problems.len() ==> {
            let lines = report_lines(problems, dry_run);
            &&& lines.len() == 3 + 3 * problems.len()
            &&& text::occurs(lines[3 + 3 * k], problems[k].what)
            &&& text::occurs(lines[4 + 3 * k], problems[k].fix)
        },
{
    if problems.len() > 0 && dry_run {
        text::lemma_occurs_between(
            DIM@ + "--dry-run: continuing past "@,
            text::decimal(problems.len()),
            " preflight problem(s)."@ + RESET@,
        );
        assert(DIM@ + "--dry-run: continuing past "@ + text::decimal(problems.len()) + (
        " preflight problem(s)."@ + RESET@) =~= report_lines(problems, dry_run)[0]);
    }
    if !dry_run && 0 <= k < problems.len() {
        lemma_problem_lines(problems, k);
        let p = problem_lines(problems);
        let lines = report_lines(problems, dry_run);
        assert(lines[3 + 3 * k] == p[3 * k]);
        assert(lines[4 + 3 * k] == p[3 * k + 1]);
    }
}

proof fn lemma_problem_lines(problems: Seq<ProblemView>, k: int)
    requires
        0 <= k < problems.len(),
    ensures
        problem_lines(problems).len() == 3 * problems.len(),
        text::occurs(problem_lines(problems)[3 * k], problems[k].what),
        text::occurs(problem_lines(problems)[3 * k + 1], problems[k].fix),
    decreases problems.len(),
{
    let front = problems.drop_last();
    let all = problem_lines(problems);
    let some = problem_lines(front);
    if front.len() > 0 {
        lemma_problem_lines(front, if k < front.len() { k } else { 0 });
    }
    if k < front.len() {
        assert(front[k] == problems[k]);
        assert(all[3 * k] == some[3 * k]);
        assert(all[3 * k + 1] == some[3 * k + 1]);
    } else {
        let p = problems[k];
        text::lemma_occurs_between(
            "  "@ + DANGER@ + "·"@ + RESET@ + " "@ + BOLD@,
            p.what,
            RESET@,
        );
        text::lemma_occurs_between("    "@ + DIM@, p.fix, RESET@);
        assert(all[3 * k] == "  "@ + DANGER@ + "·"@ + RESET@ + " "@ + BOLD@ + p.what + RESET@);
        assert(all[3 * k + 1] == "    "@ + DIM@ + p.fix + RESET@);
    }
}

/// The user is let connect exactly when there is no network, NetworkManager is
/// running, it is no dry run and it has not been tried.
pub proof fn lemma_when_to_connect(online: bool, dry_run: bool, manager: bool, tried: bool)
    ensures
        network_step(online, dry_run, manager, tried) == Network::Connect <==> !online && !dry_run
            && manager && !tried,
        network_step(online, dry_run, manager, tried) != Network::Connect ==> network_step(
            online,
            dry_run,
            manager,
            tried,
        ) == (Network::Settled { online }),
{
}

/// The library is known by the smallest profile, which stands at its usual place
/// below the root.
pub proof fn lemma_library_is_known_by_a_profile(module_root: Text)
    ensures
        library_probe(module_root) == catalog::file_of(module_root, "@kiln/profiles/minimal"@),
{
    let whole = "@kiln/profiles/minimal"@;
    let prefix = "@kiln/"@;
    let rest = "profiles/minimal"@;
    reveal_strlit("@kiln/profiles/minimal");
    reveal_strlit("@kiln/");
    reveal_strlit("profiles/minimal");
    reveal_strlit("profiles/minimal.toml");
    reveal_strlit(".toml");
    assert(whole.subrange(0, 6) =~= prefix);
    assert(whole.skip(6) =~= rest);
    assert(rest.subrange(0, 6)[0] != prefix[0]);
    reveal_with_fuel(catalog::without_prefixes, 2);
    assert(catalog::without_prefixes(rest, prefix) == rest);
    assert(catalog::without_prefixes(whole, prefix) == rest);
    assert(rest + ".toml"@ =~= "profiles/minimal.toml"@);
}

} // verus!
