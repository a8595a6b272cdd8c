//! What each question of the interview says and offers.

use vstd::prelude::*;

use crate::block;
use crate::block::{Disk, DiskView};
use crate::catalog::{Entry, EntryView, Profile, ProfileView};
use crate::interview::{Answers, AnswersView};
use crate::text;
use crate::text::{among, emit, join, same, starts_with, Text};
use crate::tui::{Opt, OptView, Page, PageView, ACCENT, BOLD, DANGER, DIM, OK, RESET, WARN};
use crate::widgets::Reviewed;

verus! {

/// The number of questions.
pub const SCREENS: usize = 14;

/// Where in the interview a question stands, counted from one.
pub open spec fn step_of(at: int) -> (int, int) {
    (at + 1, SCREENS as int)
}

/// `@kiln/gpu/amd` without its namespace: `gpu/amd`. The prefix is taken off
/// once, not as often as it is there.
pub open spec fn short_name(reference: Text) -> Text {
    if text::begins(reference, "@kiln/"@) {
        reference.skip(6)
    } else {
        reference
    }
}

/// `@kiln/gpu/amd` becomes `gpu/amd`, for a screen with a column to spare rather
/// than a namespace to prove.
pub fn short(reference: &str) -> (out: String)
    ensures
        out@ == short_name(reference@),
{
    if starts_with(reference, "@kiln/") {
        proof {
            reveal_strlit("@kiln/");
        }
        let n: usize = reference.unicode_len();
        let out = reference.substring_char(6, n).to_owned();
        assert(out@ == reference@.skip(6));
        out
    } else {
        reference.to_owned()
    }
}

// ---------------------------------------------------------------------------
// The disk
// ---------------------------------------------------------------------------

/// The page of the disk question. It is the one place where Esc has nowhere to
/// go back to, so the legend does not offer it.
pub open spec fn disk_page(at: int) -> PageView {
    PageView::titled(step_of(at), "Which disk should Kiln be installed on?"@).noted(
        "Everything on the disk you choose is erased. Disks holding a mounted"@,
    ).noted("filesystem — the medium you booted from, most likely — cannot be chosen."@).helped(
        "↑↓ move · type to filter · enter select · ctrl-c quit"@,
    )
}

/// What is said about a disk beside its path.
pub open spec fn disk_note(d: DiskView) -> Text {
    let model = if d.model.len() == 0 {
        "—"@
    } else {
        d.model
    };
    let kind = if d.removable {
        "removable"@
    } else {
        d.transport
    };
    let size = block::human_size(d.bytes as nat);
    match d.busy {
        Some(why) => size + " · "@ + model + " · "@ + why,
        None => if kind.len() == 0 {
            size + " · "@ + model
        } else {
            size + " · "@ + model + " · "@ + kind
        },
    }
}

/// A disk as a row: not to be chosen while it is busy, and checked when it is
/// the one at `current`.
pub open spec fn disk_option(d: DiskView, current: Text) -> OptView {
    OptView {
        label: d.path,
        note: disk_note(d),
        heading: false,
        enabled: d.busy is None,
        checked: d.busy is None && d.path == current,
    }
}

/// The disks as rows.
pub open spec fn disk_options(disks: Seq<DiskView>, current: Text) -> Seq<OptView> {
    disks.map_values(|d: DiskView| disk_option(d, current))
}

/// The page of the disk question.
pub fn ask_disk(at: usize) -> (out: Page)
    requires
        at < SCREENS,
    ensures
        out@ == disk_page(at as int),
{
    Page::new((at + 1, SCREENS), "Which disk should Kiln be installed on?").note(
        "Everything on the disk you choose is erased. Disks holding a mounted",
    ).note("filesystem — the medium you booted from, most likely — cannot be chosen.").help(
        "↑↓ move · type to filter · enter select · ctrl-c quit",
    )
}

/// A disk as a row.
fn disk_row(d: &Disk, current: &str) -> (out: Opt)
    ensures
        out@ == disk_option(d@, current@),
{
    proof {
        reveal_strlit("removable");
    }
    let model = if d.model.as_str().is_empty() {
        "—".to_owned()
    } else {
        d.model.clone()
    };
    let kind = if d.removable {
        "removable".to_owned()
    } else {
        d.transport.clone()
    };
    let known = d.size().concat(" · ").concat(model.as_str());
    match &d.busy {
        Some(why) => {
            let note = known.concat(" · ").concat(why.as_str());
            Opt::new(d.path.as_str(), note.as_str()).disabled()
        },
        None => {
            let note = if kind.as_str().is_empty() {
                known
            } else {
                known.concat(" · ").concat(kind.as_str())
            };
            let opt = Opt::new(d.path.as_str(), note.as_str());
            if same(d.path.as_str(), current) {
                opt.checked()
            } else {
                opt
            }
        },
    }
}

/// The disks as rows.
pub fn disk_rows(disks: &[Disk], current: &str) -> (out: Vec<Opt>)
    ensures
        out.deep_view() == disk_options(disks.deep_view(), current@),
{
    let ghost all = disk_options(disks.deep_view(), current@);
    let mut out: Vec<Opt> = Vec::new();
    assert(out.deep_view() == all.take(0));
    while out.len() < disks.len()
        invariant
            all == disk_options(disks.deep_view(), current@),
            out@.len() <= disks@.len(),
            out.deep_view() == all.take(out@.len() as int),
        decreases disks.len() - out.len(),
    {
        let i: usize = out.len();
        let row = disk_row(&disks[i], current);
        assert(all[i as int] == row@);
        assert(all.take(i + 1) == all.take(i as int).push(row@));
        let ghost before = out.deep_view();
        out.push(row);
        assert(out.deep_view() == before.push(row@));
    }
    assert(all.take(out@.len() as int) == all);
    out
}

// ---------------------------------------------------------------------------
// Encryption
// ---------------------------------------------------------------------------

/// The page of the encryption question, and of the passphrase.
pub open spec fn encrypt_page(at: int) -> PageView {
    PageView::titled(step_of(at), "Encrypt the disk?"@).noted(
        "LUKS2 over the root partition. /boot and the EFI system partition stay"@,
    ).noted("in the clear — GRUB never needs to unlock anything, the initramfs does"@).noted(
        "that at boot from a passphrase you type there, not from this one."@,
    )
}

/// No and yes, as rows.
pub open spec fn encrypt_options(encrypt: bool) -> Seq<OptView> {
    seq![
        OptView { checked: !encrypt, ..OptView::plain("No"@, "root is written in the clear"@) },
        OptView {
            checked: encrypt,
            ..OptView::plain(
                "Yes"@,
                "cryptsetup luksFormat; unlocked at every boot with a passphrase"@,
            )
        },
    ]
}

/// The page that says that nothing here can encrypt a disk.
pub open spec fn missing_page(at: int) -> PageView {
    PageView::titled(step_of(at), "Encrypt the disk?"@).noted(
        DANGER@ + "`cryptsetup` is not on PATH, so nothing on this medium can"@ + RESET@,
    ).noted(DANGER@ + "create a LUKS2 container."@ + RESET@).noted(Seq::empty()).noted(
        "Install it with `pacman -S cryptsetup` and start the installer"@,
    ).noted("again, or continue without encryption."@).helped(
        "enter back to the question · ctrl-c quit"@,
    )
}

/// The page of the encryption question.
pub fn ask_encrypt(at: usize) -> (out: Page)
    requires
        at < SCREENS,
    ensures
        out@ == encrypt_page(at as int),
{
    Page::new((at + 1, SCREENS), "Encrypt the disk?").note(
        "LUKS2 over the root partition. /boot and the EFI system partition stay",
    ).note("in the clear — GRUB never needs to unlock anything, the initramfs does").note(
        "that at boot from a passphrase you type there, not from this one.",
    )
}

/// No and yes, as rows.
pub fn encrypt_rows(encrypt: bool) -> (out: Vec<Opt>)
    ensures
        out.deep_view() == encrypt_options(encrypt),
{
    let no = Opt::new("No", "root is written in the clear");
    let yes = Opt::new("Yes", "cryptsetup luksFormat; unlocked at every boot with a passphrase");
    let mut out: Vec<Opt> = Vec::new();
    if encrypt {
        out.push(no);
        out.push(yes.checked());
    } else {
        out.push(no.checked());
        out.push(yes);
    }
    assert(out.deep_view() =~= encrypt_options(encrypt));
    out
}

/// The page that says that nothing here can encrypt a disk.
pub fn tell_missing(at: usize) -> (out: Page)
    requires
        at < SCREENS,
    ensures
        out@ == missing_page(at as int),
{
    let first = DANGER.to_owned().concat(
        "`cryptsetup` is not on PATH, so nothing on this medium can",
    ).concat(RESET);
    let second = DANGER.to_owned().concat("create a LUKS2 container.").concat(RESET);
    proof {
        reveal_strlit("");
    }
    assert(""@ == Seq::<char>::empty());
    Page::new((at + 1, SCREENS), "Encrypt the disk?").note(first.as_str()).note(
        second.as_str(),
    ).note("").note("Install it with `pacman -S cryptsetup` and start the installer").note(
        "again, or continue without encryption.",
    ).help("enter back to the question · ctrl-c quit")
}

// ---------------------------------------------------------------------------
// The last word on the disk
// ---------------------------------------------------------------------------

/// The page of the confirmation. A removable disk is not refused, because an
/// external SSD is a perfectly good place to install a system; it is said out
/// loud, though, because the other thing a removable disk very often is is the
/// stick this installer booted from.
pub open spec fn confirm_page(at: int, a: AnswersView) -> PageView {
    let d = a.disk;
    let named = PageView::titled(step_of(at), "Erase "@ + d.path + "?"@).noted(
        block::human_size(d.bytes as nat) + " · "@ + (if d.model.len() == 0 {
            "unknown model"@
        } else {
            d.model
        }),
    );
    let warned = if d.removable {
        named.noted(
            WARN@ + "This is a removable disk. Make sure it is not the medium you booted."@
                + RESET@,
        )
    } else {
        named
    };
    let root_row = if a.encrypt {
        "  "@ + ACCENT@ + "3"@ + RESET@ + "  rest LUKS2 → ext4        → /"@
    } else {
        "  "@ + ACCENT@ + "3"@ + RESET@ + "  rest ext4                 → /"@
    };
    warned.noted(Seq::empty()).noted(
        DANGER@ + "The partition table and every filesystem on this disk are destroyed."@ + RESET@,
    ).noted("There is no undo, and nothing else on the machine is touched."@).noted(
        Seq::empty(),
    ).noted("Kiln will lay it out as "@ + DIM@ + "follows"@ + RESET@ + ":"@).noted(
        "  "@ + ACCENT@ + "1"@ + RESET@ + "  1G   EFI system partition   → /boot/efi"@,
    ).noted("  "@ + ACCENT@ + "2"@ + RESET@ + "  1G   ext4                   → /boot"@).noted(
        root_row,
    )
}

/// The page of the confirmation.
pub fn ask_confirm(at: usize, a: &Answers) -> (out: Page)
    requires
        at < SCREENS,
    ensures
        out@ == confirm_page(at as int, a@),
{
    let d = &a.disk;
    let title = "Erase ".to_owned().concat(d.path.as_str()).concat("?");
    let model = if d.model.as_str().is_empty() {
        "unknown model".to_owned()
    } else {
        d.model.clone()
    };
    let known = d.size().concat(" · ").concat(model.as_str());
    let named = Page::new((at + 1, SCREENS), title.as_str()).note(known.as_str());
    let warned = if d.removable {
        let line = WARN.to_owned().concat(
            "This is a removable disk. Make sure it is not the medium you booted.",
        ).concat(RESET);
        named.note(line.as_str())
    } else {
        named
    };
    let erased = DANGER.to_owned().concat(
        "The partition table and every filesystem on this disk are destroyed.",
    ).concat(RESET);
    let follows = "Kiln will lay it out as ".to_owned().concat(DIM).concat("follows").concat(
        RESET,
    ).concat(":");
    let esp = "  ".to_owned().concat(ACCENT).concat("1").concat(RESET).concat(
        "  1G   EFI system partition   → /boot/efi",
    );
    let boot = "  ".to_owned().concat(ACCENT).concat("2").concat(RESET).concat(
        "  1G   ext4                   → /boot",
    );
    let root = "  ".to_owned().concat(ACCENT).concat("3").concat(RESET).concat(
        if a.encrypt {
            "  rest LUKS2 → ext4        → /"
        } else {
            "  rest ext4                 → /"
        },
    );
    proof {
        reveal_strlit("");
    }
    assert(""@ == Seq::<char>::empty());
    warned.note("").note(erased.as_str()).note(
        "There is no undo, and nothing else on the machine is touched.",
    ).note("").note(follows.as_str()).note(esp.as_str()).note(boot.as_str()).note(root.as_str())
}

// ---------------------------------------------------------------------------
// Text questions
// ---------------------------------------------------------------------------

/// The page of the hostname question.
pub open spec fn hostname_page(at: int) -> PageView {
    PageView::titled(step_of(at), "What is this machine called?"@).noted(
        "Set with `systemd-firstboot`, not written into the image: changing a"@,
    ).noted("hostname does not need a new image, so it is not Kiln's to hold."@)
}

/// The page of the packages question.
pub open spec fn packages_page(at: int) -> PageView {
    PageView::titled(step_of(at), "Any packages to add?"@).noted(
        "Space-separated Arch package names — `neovim git firefox`. Leave it"@,
    ).noted("empty if you would rather add them later; `kiln apply` is the same"@).noted(
        "command either way."@,
    )
}

/// The page of the username question.
pub open spec fn username_page(at: int) -> PageView {
    PageView::titled(step_of(at), "Who is the first user?"@).noted(
        "Created with `useradd` in the deployment, and put in `wheel`. Kiln"@,
    ).noted("itself has no idea this account exists — accounts live in /etc and"@).noted(
        "are not image content, deliberately and permanently."@,
    )
}

/// The page of the user's password.
pub open spec fn password_page(at: int, username: Text) -> PageView {
    PageView::titled(step_of(at), "A password for "@ + username).noted(
        "Typed twice. Nothing is echoed, and it never reaches the image or"@,
    ).noted("the log — it is piped to `chpasswd` inside the deployment."@)
}

/// The page of root's password.
pub open spec fn root_password_page(at: int, sudo: bool) -> PageView {
    let page = PageView::titled(step_of(at), "A password for root"@);
    if sudo {
        page.noted("Optional. Your configuration grants `wheel` sudo, so you can leave"@).noted(
            "this empty and the root account stays locked — which is what most"@,
        ).noted("Arch installs do now."@)
    } else {
        page.noted("Required. The profile you picked does not grant `wheel` sudo, so"@).noted(
            "root is the only way to administer this machine. Add"@,
        ).noted("`@kiln/security/wheel-sudo` later if you would rather use sudo."@)
    }
}

/// The page of the hostname question.
pub fn ask_hostname(at: usize) -> (out: Page)
    requires
        at < SCREENS,
    ensures
        out@ == hostname_page(at as int),
{
    Page::new((at + 1, SCREENS), "What is this machine called?").note(
        "Set with `systemd-firstboot`, not written into the image: changing a",
    ).note("hostname does not need a new image, so it is not Kiln's to hold.")
}

/// The page of the packages question.
pub fn ask_packages(at: usize) -> (out: Page)
    requires
        at < SCREENS,
    ensures
        out@ == packages_page(at as int),
{
    Page::new((at + 1, SCREENS), "Any packages to add?").note(
        "Space-separated Arch package names — `neovim git firefox`. Leave it",
    ).note("empty if you would rather add them later; `kiln apply` is the same").note(
        "command either way.",
    )
}

/// The page of the username question.
pub fn ask_username(at: usize) -> (out: Page)
    requires
        at < SCREENS,
    ensures
        out@ == username_page(at as int),
{
    Page::new((at + 1, SCREENS), "Who is the first user?").note(
        "Created with `useradd` in the deployment, and put in `wheel`. Kiln",
    ).note("itself has no idea this account exists — accounts live in /etc and").note(
        "are not image content, deliberately and permanently.",
    )
}

/// The page of the user's password.
pub fn ask_password(at: usize, username: &str) -> (out: Page)
    requires
        at < SCREENS,
    ensures
        out@ == password_page(at as int, username@),
{
    let title = "A password for ".to_owned().concat(username);
    Page::new((at + 1, SCREENS), title.as_str()).note(
        "Typed twice. Nothing is echoed, and it never reaches the image or",
    ).note("the log — it is piped to `chpasswd` inside the deployment.")
}

/// The page of root's password.
pub fn ask_root_password(at: usize, sudo: bool) -> (out: Page)
    requires
        at < SCREENS,
    ensures
        out@ == root_password_page(at as int, sudo),
{
    let page = Page::new((at + 1, SCREENS), "A password for root");
    if sudo {
        page.note("Optional. Your configuration grants `wheel` sudo, so you can leave").note(
            "this empty and the root account stays locked — which is what most",
        ).note("Arch installs do now.")
    } else {
        page.note("Required. The profile you picked does not grant `wheel` sudo, so").note(
            "root is the only way to administer this machine. Add",
        ).note("`@kiln/security/wheel-sudo` later if you would rather use sudo.")
    }
}

// ---------------------------------------------------------------------------
// Lists
// ---------------------------------------------------------------------------

/// The page of a question with a long list.
pub open spec fn pick_page(at: int, title: Text, note: Text) -> PageView {
    PageView::titled(step_of(at), title).noted(note).noted("Start typing to filter."@)
}

/// A long list as rows, checked where the answer already stands.
pub open spec fn pick_options(list: Seq<Text>, current: Text) -> Seq<OptView> {
    list.map_values(
        |s: Text| OptView { checked: s == current, ..OptView::plain(s, Seq::empty()) },
    )
}

/// The page of a question with a long list.
pub fn ask_pick(at: usize, title: &str, note: &str) -> (out: Page)
    requires
        at < SCREENS,
    ensures
        out@ == pick_page(at as int, title@, note@),
{
    Page::new((at + 1, SCREENS), title).note(note).note("Start typing to filter.")
}

/// A long list as rows.
pub fn pick_rows(list: &[String], current: &str) -> (out: Vec<Opt>)
    ensures
        out.deep_view() == pick_options(list.deep_view(), current@),
{
    let ghost all = pick_options(list.deep_view(), current@);
    proof {
        reveal_strlit("");
    }
    assert(""@ == Seq::<char>::empty());
    let mut out: Vec<Opt> = Vec::new();
    assert(out.deep_view() == all.take(0));
    while out.len() < list.len()
        invariant
            all == pick_options(list.deep_view(), current@),
            ""@ == Seq::<char>::empty(),
            out@.len() <= list@.len(),
            out.deep_view() == all.take(out@.len() as int),
        decreases list.len() - out.len(),
    {
        let i: usize = out.len();
        let s = list[i].as_str();
        let opt = Opt::new(s, "");
        let row = if same(s, current) {
            opt.checked()
        } else {
            opt
        };
        assert(all[i as int] == row@);
        assert(all.take(i + 1) == all.take(i as int).push(row@));
        let ghost before = out.deep_view();
        out.push(row);
        assert(out.deep_view() == before.push(row@));
    }
    assert(all.take(out@.len() as int) == all);
    out
}

/// The page of the profile question.
pub open spec fn profile_page(at: int) -> PageView {
    PageView::titled(step_of(at), "What kind of system is this?"@).noted(
        "A profile is one line of `include` and the packages nobody has an"@,
    ).noted("opinion about. It also picks the kernel — two kernel modules are a"@).noted(
        "conflict by design, so this is where that choice is made."@,
    )
}

/// The profiles as rows.
pub open spec fn profile_options(profiles: Seq<ProfileView>, current: Text) -> Seq<OptView> {
    profiles.map_values(
        |p: ProfileView| OptView { checked: p.module == current, ..OptView::plain(p.label, p.note) },
    )
}

/// The page of the profile question.
pub fn ask_profile(at: usize) -> (out: Page)
    requires
        at < SCREENS,
    ensures
        out@ == profile_page(at as int),
{
    Page::new((at + 1, SCREENS), "What kind of system is this?").note(
        "A profile is one line of `include` and the packages nobody has an",
    ).note("opinion about. It also picks the kernel — two kernel modules are a").note(
        "conflict by design, so this is where that choice is made.",
    )
}

/// The profiles as rows.
pub fn profile_rows(profiles: &[Profile], current: &str) -> (out: Vec<Opt>)
    ensures
        out.deep_view() == profile_options(profiles.deep_view(), current@),
{
    let ghost all = profile_options(profiles.deep_view(), current@);
    let mut out: Vec<Opt> = Vec::new();
    assert(out.deep_view() == all.take(0));
    while out.len() < profiles.len()
        invariant
            all == profile_options(profiles.deep_view(), current@),
            out@.len() <= profiles@.len(),
            out.deep_view() == all.take(out@.len() as int),
        decreases profiles.len() - out.len(),
    {
        let i: usize = out.len();
        let p = &profiles[i];
        let opt = Opt::new(p.label, p.note);
        let row = if same(p.module, current) {
            opt.checked()
        } else {
            opt
        };
        assert(all[i as int] == row@);
        assert(all.take(i + 1) == all.take(i as int).push(row@));
        let ghost before = out.deep_view();
        out.push(row);
        assert(out.deep_view() == before.push(row@));
    }
    assert(all.take(out@.len() as int) == all);
    out
}

/// The page of the modules question.
pub open spec fn modules_page(at: int) -> PageView {
    PageView::titled(step_of(at), "Anything else from the module library?"@).noted(
        "Each is one line of `include` in the configuration you end up with,"@,
    ).noted("and you can add or remove any of them later with `kiln apply`."@).noted(
        "Everything your profile already covers is left out of this list."@,
    )
}

/// An entry of the module library as a row, checked when it is chosen.
pub open spec fn module_option(e: EntryView, chosen: Seq<Text>) -> OptView {
    match e {
        EntryView::Group(g) => OptView {
            label: g,
            note: Seq::empty(),
            heading: true,
            enabled: false,
            checked: false,
        },
        EntryView::Module(m) => OptView {
            checked: chosen.contains(m.module),
            ..OptView::plain(m.label, m.note)
        },
    }
}

/// The module library as rows.
pub open spec fn module_options(extras: Seq<EntryView>, chosen: Seq<Text>) -> Seq<OptView> {
    extras.map_values(|e: EntryView| module_option(e, chosen))
}

/// The page of the modules question.
pub fn ask_modules(at: usize) -> (out: Page)
    requires
        at < SCREENS,
    ensures
        out@ == modules_page(at as int),
{
    Page::new((at + 1, SCREENS), "Anything else from the module library?").note(
        "Each is one line of `include` in the configuration you end up with,",
    ).note("and you can add or remove any of them later with `kiln apply`.").note(
        "Everything your profile already covers is left out of this list.",
    )
}

/// The module library as rows.
pub fn module_rows(extras: &[Entry], chosen: &[String]) -> (out: Vec<Opt>)
    ensures
        out.deep_view() == module_options(extras.deep_view(), chosen.deep_view()),
{
    let ghost all = module_options(extras.deep_view(), chosen.deep_view());
    let mut out: Vec<Opt> = Vec::new();
    assert(out.deep_view() == all.take(0));
    while out.len() < extras.len()
        invariant
            all == module_options(extras.deep_view(), chosen.deep_view()),
            out@.len() <= extras@.len(),
            out.deep_view() == all.take(out@.len() as int),
        decreases extras.len() - out.len(),
    {
        let i: usize = out.len();
        let row = match &extras[i] {
            Entry::Group(g) => Opt::heading(*g),
            Entry::Module(m) => {
                let opt = Opt::new(m.label, m.note);
                if among(chosen, m.module) {
                    opt.checked()
                } else {
                    opt
                }
            },
        };
        assert(all[i as int] == row@);
        assert(all.take(i + 1) == all.take(i as int).push(row@));
        let ghost before = out.deep_view();
        out.push(row);
        assert(out.deep_view() == before.push(row@));
    }
    assert(all.take(out@.len() as int) == all);
    out
}

// ---------------------------------------------------------------------------
// The review
// ---------------------------------------------------------------------------

/// The page of the review.
pub open spec fn review_page(at: int) -> PageView {
    PageView::titled(step_of(at), "Ready"@).noted(
        "Everything up to here was a question. Past this screen the disk is"@,
    ).noted("erased and a real image is built, which takes a while."@)
}

/// A list in one line, or a dimmed word where it is empty.
pub open spec fn listed(list: Seq<Text>) -> Text {
    if list.len() == 0 {
        DIM@ + "none"@ + RESET@
    } else {
        text::joined(list, " "@)
    }
}

/// Everything that was answered.
pub open spec fn review_of(a: AnswersView) -> Reviewed {
    seq![
        (
            "disk"@,
            BOLD@ + DANGER@ + a.disk.path + RESET@ + "  "@ + block::human_size(a.disk.bytes as nat)
                + " — erased"@,
        ),
        (
            "encryption"@,
            if a.encrypt {
                OK@ + "LUKS2, root only"@ + RESET@
            } else {
                DIM@ + "none"@ + RESET@
            },
        ),
        ("hostname"@, a.hostname),
        ("timezone"@, a.timezone),
        ("locale"@, a.locale + "  ·  keymap "@ + a.keymap),
        ("profile"@, short_name(a.profile)),
        ("modules"@, listed(a.modules.map_values(|m: Text| short_name(m)))),
        ("packages"@, listed(a.packages)),
        ("user"@, a.username + " (wheel)"@),
        (
            "root"@,
            if a.root_password.len() == 0 {
                DIM@ + "locked — administer with sudo"@ + RESET@
            } else {
                "password set"@
            },
        ),
    ]
}

/// The page of the review.
pub fn ask_review(at: usize) -> (out: Page)
    requires
        at < SCREENS,
    ensures
        out@ == review_page(at as int),
{
    Page::new((at + 1, SCREENS), "Ready").note(
        "Everything up to here was a question. Past this screen the disk is",
    ).note("erased and a real image is built, which takes a while.")
}

/// A list in one line, or a dimmed word where it is empty.
fn list_text(list: &[String]) -> (out: String)
    ensures
        out@ == listed(list.deep_view()),
{
    assert(list.deep_view().len() == list@.len());
    if list.len() == 0 {
        DIM.to_owned().concat("none").concat(RESET)
    } else {
        join(list, " ")
    }
}

/// One row of the review.
fn put(rows: &mut Vec<(String, String)>, name: &str, value: String)
    ensures
        final(rows).deep_view() == old(rows).deep_view().push((name@, value@)),
{
    rows.push((name.to_owned(), value));
    assert(rows.deep_view() =~= old(rows).deep_view().push((name@, value@)));
}

/// Everything that was answered.
pub fn review_rows(a: &Answers) -> (out: Vec<(String, String)>)
    ensures
        out.deep_view() == review_of(a@),
{
    let ghost all = a@.modules.map_values(|m: Text| short_name(m));
    let mut modules: Vec<String> = Vec::new();
    assert(modules.deep_view() == all.take(0));
    while modules.len() < a.modules.len()
        invariant
            all == a@.modules.map_values(|m: Text| short_name(m)),
            modules@.len() <= a.modules@.len(),
            modules.deep_view() == all.take(modules@.len() as int),
        decreases a.modules.len() - modules.len(),
    {
        let i: usize = modules.len();
        let name = short(a.modules[i].as_str());
        assert(all[i as int] == name@);
        assert(all.take(i + 1) == all.take(i as int).push(name@));
        emit(&mut modules, name);
    }
    assert(all.take(modules@.len() as int) == all);

    let mut rows: Vec<(String, String)> = Vec::new();
    put(
        &mut rows,
        "disk",
        BOLD.to_owned().concat(DANGER).concat(a.disk.path.as_str()).concat(RESET).concat(
            "  ",
        ).concat(a.disk.size().as_str()).concat(" — erased"),
    );
    put(
        &mut rows,
        "encryption",
        if a.encrypt {
            OK.to_owned().concat("LUKS2, root only").concat(RESET)
        } else {
            DIM.to_owned().concat("none").concat(RESET)
        },
    );
    put(&mut rows, "hostname", a.hostname.clone());
    put(&mut rows, "timezone", a.timezone.clone());
    put(&mut rows, "locale", a.locale.clone().concat("  ·  keymap ").concat(a.keymap.as_str()));
    put(&mut rows, "profile", short(a.profile.as_str()));
    put(&mut rows, "modules", list_text(modules.as_slice()));
    put(&mut rows, "packages", list_text(a.packages.as_slice()));
    put(&mut rows, "user", a.username.clone().concat(" (wheel)"));
    put(
        &mut rows,
        "root",
        if a.root_password.as_str().is_empty() {
            DIM.to_owned().concat("locked — administer with sudo").concat(RESET)
        } else {
            "password set".to_owned()
        },
    );
    assert(rows.deep_view() =~= review_of(a@));
    rows
}

/// No password and no passphrase shows in the review: answers that differ only
/// in those, and agree on whether root has one, are reviewed alike.
pub proof fn lemma_review_hides_secrets(a: AnswersView, b: AnswersView)
    requires
        b == (AnswersView {
            user_password: b.user_password,
            root_password: b.root_password,
            passphrase: b.passphrase,
            ..a
        }),
        a.root_password.len() == 0 <==> b.root_password.len() == 0,
    ensures
        review_of(a) == review_of(b),
{
}

/// A disk's row tells what it is: its path is the label, and its size and model
/// are in the note, with the reason when it cannot be chosen and its kind
/// otherwise. It can be chosen exactly when there is no reason against it.
pub proof fn lemma_disk_rows_tell(d: DiskView, current: Text)
    ensures
        ({
            let o = disk_option(d, current);
            &&& o.label == d.path && !o.heading
            &&& o.enabled <==> d.busy is None
            &&& o.checked <==> d.busy is None && d.path == current
            &&& text::begins(o.note, block::human_size(d.bytes as nat))
            &&& d.model.len() > 0 ==> text::occurs(o.note, d.model)
            &&& d.busy matches Some(why) ==> text::ends(o.note, why)
            &&& d.busy is None && d.removable ==> text::ends(o.note, "removable"@)
            &&& d.busy is None && !d.removable ==> text::ends(o.note, d.transport)
        }),
{
    let model = if d.model.len() == 0 {
        "—"@
    } else {
        d.model
    };
    let kind = if d.removable {
        "removable"@
    } else {
        d.transport
    };
    let size = block::human_size(d.bytes as nat);
    let note = disk_note(d);
    let dot = " · "@;
    reveal_strlit("removable");
    assert(note.subrange(0, size.len() as int) =~= size);
    let rest = match d.busy {
        Some(why) => dot + why,
        None => if kind.len() == 0 {
            Seq::empty()
        } else {
            dot + kind
        },
    };
    assert(note =~= size + dot + model + rest);
    text::lemma_occurs_between(size + dot, model, rest);
    match d.busy {
        Some(why) => {
            assert(note.subrange(note.len() - why.len(), note.len() as int) =~= why);
        },
        None => {
            assert(note.subrange(note.len() - kind.len(), note.len() as int) =~= kind);
        },
    }
}

/// The review has a row for everything that was answered and is no secret: each
/// answer stands in its row, every chosen module and package among them, and
/// root's row tells whether it is locked.
pub proof fn lemma_review_shows_every_answer(a: AnswersView, k: int)
    ensures
        ({
            let rows = review_of(a);
            &&& rows.len() == 10
            &&& rows[0].0 == "disk"@ && text::occurs(rows[0].1, a.disk.path)
            &&& rows[1].0 == "encryption"@ && (rows[1].1 == DIM@ + "none"@ + RESET@ <==> !a.encrypt)
            &&& rows[2] == ("hostname"@, a.hostname)
            &&& rows[3] == ("timezone"@, a.timezone)
            &&& rows[4].0 == "locale"@ && text::begins(rows[4].1, a.locale) && text::ends(
                rows[4].1,
                a.keymap,
            )
            &&& rows[5].0 == "profile"@ && text::ends(a.profile, rows[5].1)
            &&& rows[6].0 == "modules"@ && (0 <= k < a.modules.len() ==> text::occurs(
                rows[6].1,
                short_name(a.modules[k]),
            ))
            &&& rows[7].0 == "packages"@ && (0 <= k < a.packages.len() ==> text::occurs(
                rows[7].1,
                a.packages[k],
            ))
            &&& rows[8].0 == "user"@ && text::begins(rows[8].1, a.username)
            &&& rows[9].0 == "root"@ && (rows[9].1 == "password set"@ <==> a.root_password.len() > 0)
        }),
{
    let rows = review_of(a);
    let size = block::human_size(a.disk.bytes as nat);
    text::lemma_occurs_between(
        BOLD@ + DANGER@,
        a.disk.path,
        RESET@ + "  "@ + size + " — erased"@,
    );
    assert(rows[0].1 =~= BOLD@ + DANGER@ + a.disk.path + (RESET@ + "  "@ + size + " — erased"@));
    reveal_strlit("\x1b[2m");
    reveal_strlit("\x1b[32m");
    reveal_strlit("password set");
    assert((OK@ + "LUKS2, root only"@ + RESET@)[2] == '3');
    assert((DIM@ + "none"@ + RESET@)[2] == '2');
    assert((DIM@ + "locked — administer with sudo"@ + RESET@)[0] == '\x1b');
    assert("password set"@[0] == 'p');
    let locale = rows[4].1;
    assert(locale.subrange(0, a.locale.len() as int) =~= a.locale);
    assert(locale.subrange(locale.len() - a.keymap.len(), locale.len() as int) =~= a.keymap);
    lemma_short_ends(a.profile);
    let shorts = a.modules.map_values(|m: Text| short_name(m));
    if 0 <= k < a.modules.len() {
        assert(shorts[k] == short_name(a.modules[k]));
        text::lemma_joined_holds(shorts, " "@, k);
    }
    if 0 <= k < a.packages.len() {
        text::lemma_joined_holds(a.packages, " "@, k);
    }
    let user = rows[8].1;
    assert(user.subrange(0, a.username.len() as int) =~= a.username);
}

proof fn lemma_short_ends(reference: Text)
    ensures
        text::ends(reference, short_name(reference)),
{
    let s = short_name(reference);
    reveal_strlit("@kiln/");
    assert(reference.subrange(reference.len() - s.len(), reference.len() as int) =~= s);
}

/// A reference is shortened by its namespace and by nothing else.
pub proof fn lemma_short_names(rest: Text)
    ensures
        short_name("@kiln/"@ + rest) == rest,
        !text::begins(rest, "@kiln/"@) ==> short_name(rest) == rest,
{
    reveal_strlit("@kiln/");
    let long = "@kiln/"@ + rest;
    assert(long.subrange(0, 6) =~= "@kiln/"@);
    assert(long.skip(6) =~= rest);
}

/// The confirmation names the disk and its size, and warns of a removable one.
pub proof fn lemma_confirmation_names_the_disk(at: int, a: AnswersView)
    ensures
        ({
            let page = confirm_page(at, a);
            &&& page.title == "Erase "@ + a.disk.path + "?"@
            &&& text::begins(page.note[0], block::human_size(a.disk.bytes as nat))
            &&& a.disk.removable ==> page.note.len() == 10 && page.note[1] == WARN@
                + "This is a removable disk. Make sure it is not the medium you booted."@ + RESET@
            &&& !a.disk.removable ==> page.note.len() == 9
            &&& page.step == (at + 1, 14int)
        }),
{
    let page = confirm_page(at, a);
    let size = block::human_size(a.disk.bytes as nat);
    let note = page.note[0];
    assert(note.subrange(0, size.len() as int) =~= size);
}

} // verus!
