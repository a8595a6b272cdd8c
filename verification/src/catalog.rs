//! The choices the interview offers.
//!
//! The module names are a copy of Kiln's module library, not a read of it: the
//! notes beside each entry are written for somebody installing a system for the
//! first time. What the machine's own library does not have is not offered.
//!
//! Locales, timezones and keymaps come from the running system instead, because
//! those lists are glibc's and systemd's and copying them would mean shipping a
//! snapshot that goes stale.

use vstd::prelude::*;

use crate::interview::{MINIMAL, WHEEL_SUDO};
use crate::path;
use crate::path::below;
use crate::run;
use crate::run::Failed;
use crate::text;
use crate::text::{
    among, emit, ends_with, lines_of, same, sort_unique, starts_with, trimmed, words_of,
    Text,
};

verus! {

/// A profile of the module library.
pub struct Profile {
    pub module: &'static str,
    pub label: &'static str,
    pub note: &'static str,
}

/// What a `Profile` holds, as contracts see it.
#[verifier::ext_equal]
pub struct ProfileView {
    pub module: Text,
    pub label: Text,
    pub note: Text,
}

impl View for Profile {
    type V = ProfileView;

    open spec fn view(&self) -> ProfileView {
        ProfileView { module: self.module@, label: self.label@, note: self.note@ }
    }
}

impl DeepView for Profile {
    type V = ProfileView;

    open spec fn deep_view(&self) -> ProfileView {
        self@
    }
}

/// A module of the library that can be added to a profile.
pub struct Module {
    pub module: &'static str,
    pub label: &'static str,
    pub note: &'static str,
    /// Pre-checked on the modules screen. Reserved for modules whose absence
    /// would leave the installed system unable to reproduce or update itself.
    pub default: bool,
}

/// What a `Module` holds, as contracts see it.
#[verifier::ext_equal]
pub struct ModuleView {
    pub module: Text,
    pub label: Text,
    pub note: Text,
    pub default: bool,
}

impl View for Module {
    type V = ModuleView;

    open spec fn view(&self) -> ModuleView {
        ModuleView {
            module: self.module@,
            label: self.label@,
            note: self.note@,
            default: self.default,
        }
    }
}

/// A row of the modules screen: a heading, or a module.
pub enum Entry {
    Group(&'static str),
    Module(Module),
}

/// What an `Entry` holds, as contracts see it.
#[verifier::ext_equal]
pub enum EntryView {
    Group(Text),
    Module(ModuleView),
}

impl View for Entry {
    type V = EntryView;

    open spec fn view(&self) -> EntryView {
        match self {
            Entry::Group(g) => EntryView::Group(g@),
            Entry::Module(m) => EntryView::Module(m@),
        }
    }
}

impl DeepView for Entry {
    type V = EntryView;

    open spec fn deep_view(&self) -> EntryView {
        self@
    }
}

/// Module, label and note of every profile. Profiles are the only modules that
/// compose, and every one of them already picks a kernel, which is why the
/// interview does not ask about kernels separately.
pub const PROFILES: [(&'static str, &'static str, &'static str); 3] = [
    (
        "@kiln/profiles/workstation",
        "workstation",
        "desktop machine — networking, audio, bluetooth, printing, sudo",
    ),
    ("@kiln/profiles/server", "server", "headless — linux-lts, sshd, nftables, nothing else"),
    ("@kiln/profiles/minimal", "minimal", "the smallest image that boots; no network stack at all"),
];

/// Everything worth adding on top of a profile, grouped the way Kiln's module
/// library groups it: module, label, note, and whether it is pre-checked. A row
/// without a module is a heading.
///
/// Absent on purpose: `@kiln/kernel/*` (a profile picked one, and two is a
/// conflict by design), `@kiln/boot/grub2` and `@kiln/hardware/firmware` (every
/// profile has them already).
pub const EXTRAS: [(&'static str, &'static str, &'static str, bool); 54] = [
    ("", "terracotta", "", false),
    ("@kiln/terracotta/installer", "installer", "keeps terracotta-installer available on the deployed system", false),
    ("@kiln/terracotta/kiln", "kiln", "the build tool itself, on the deployed system — highly recommended", true),
    ("@kiln/terracotta/branding", "branding", "Terracotta Linux branding — highly recommended", true),
    ("", "desktop", "", false),
    ("@kiln/desktop/gnome-minimal", "gnome (minimal)", "session, shell and GDM — no other apps", false),
    ("@kiln/desktop/gnome", "gnome", "gnome-minimal plus a normal app set", false),
    ("@kiln/desktop/gnome-full", "gnome (full)", "gnome plus the gnome-extra group", false),
    ("@kiln/desktop/plasma-minimal", "plasma (minimal)", "session, portal and SDDM — no other apps", false),
    ("@kiln/desktop/plasma", "plasma", "plasma-minimal plus a normal app set", false),
    ("@kiln/desktop/plasma-full", "plasma (full)", "plasma plus plasma-meta", false),
    ("@kiln/desktop/cosmic-minimal", "cosmic (minimal)", "session only", false),
    ("@kiln/desktop/cosmic", "cosmic", "the full cosmic group", false),
    ("@kiln/desktop/xfce-minimal", "xfce (minimal)", "session and LightDM — no other apps", false),
    ("@kiln/desktop/xfce", "xfce", "the full xfce4 and xfce4-goodies groups", false),
    ("", "window managers", "", false),
    ("@kiln/wm/hyprland", "hyprland", "Wayland, dynamic tiling", false),
    ("@kiln/wm/sway", "sway", "Wayland, i3-compatible", false),
    ("@kiln/wm/niri", "niri", "Wayland, scrollable tiling", false),
    ("@kiln/wm/i3", "i3", "X11, manual tiling", false),
    ("", "graphics", "", false),
    ("@kiln/gpu/amd", "amd", "Mesa, RADV", false),
    ("@kiln/gpu/amd-rocm", "amd-rocm", "ROCm, on top of amd", false),
    ("@kiln/gpu/intel", "intel", "Mesa, ANV", false),
    ("@kiln/gpu/nvidia-open", "nvidia-open", "built against `linux`", false),
    ("@kiln/gpu/nvidia-open-lts", "nvidia-open-lts", "built against `linux-lts` — pair with the server profile", false),
    ("@kiln/gpu/nvidia-cuda", "nvidia-cuda", "CUDA and cuDNN, on top of an nvidia-open driver", false),
    ("", "firmware", "", false),
    ("@kiln/hardware/amd-ucode", "amd-ucode", "AMD microcode", false),
    ("@kiln/hardware/intel-ucode", "intel-ucode", "Intel microcode", false),
    ("", "hardware", "", false),
    ("@kiln/hardware/bluetooth", "bluetooth", "bluez", false),
    ("@kiln/hardware/laptop", "laptop", "audio DSP firmware, power management", false),
    ("@kiln/hardware/printing", "printing", "CUPS", false),
    ("", "network", "", false),
    ("@kiln/net/networkmanager", "networkmanager", "the desktop answer", false),
    ("@kiln/net/systemd-networkd", "systemd-networkd", "the server answer", false),
    ("@kiln/net/iwd", "iwd", "wifi daemon — pair with systemd-networkd", false),
    ("@kiln/net/sshd", "sshd", "OpenSSH, key auth only", false),
    ("@kiln/net/nftables", "nftables", "a default-deny firewall", false),
    ("@kiln/net/tailscale", "tailscale", "enabled at boot; join the tailnet yourself", false),
    ("", "audio", "", false),
    ("@kiln/audio/pipewire", "pipewire", "PipeWire and WirePlumber", false),
    ("", "development", "", false),
    ("@kiln/dev/base-devel", "base-devel", "toolchain, needed to build AUR packages in-image", false),
    ("@kiln/dev/rust", "rust", "rustup-free Rust toolchain", false),
    ("@kiln/dev/go", "go", "Go toolchain", false),
    ("", "virtualization", "", false),
    ("@kiln/virt/podman", "podman", "rootless containers", false),
    ("@kiln/virt/docker", "docker", "Docker", false),
    ("@kiln/virt/libvirt", "libvirt", "QEMU/KVM", false),
    ("", "security", "", false),
    ("@kiln/security/wheel-sudo", "wheel-sudo", "members of `wheel` may sudo", false),
    ("@kiln/security/apparmor", "apparmor", "AppArmor, enforcing", false),
];

/// The catalog's profiles.
pub open spec fn all_profiles() -> Seq<ProfileView> {
    PROFILES@.map_values(
        |row: (&'static str, &'static str, &'static str)|
            ProfileView { module: row.0@, label: row.1@, note: row.2@ },
    )
}

/// The entry that a row of the catalog stands for.
pub open spec fn entry_of(row: (&'static str, &'static str, &'static str, bool)) -> EntryView {
    if row.0@.len() == 0 {
        EntryView::Group(row.1@)
    } else {
        EntryView::Module(
            ModuleView { module: row.0@, label: row.1@, note: row.2@, default: row.3 },
        )
    }
}

/// The catalog's extras.
pub open spec fn all_extras() -> Seq<EntryView> {
    EXTRAS@.map_values(|row: (&'static str, &'static str, &'static str, bool)| entry_of(row))
}

// ---------------------------------------------------------------------------
// The machine's library
// ---------------------------------------------------------------------------

/// A text without any number of `prefix`es at its start.
pub open spec fn without_prefixes(s: Text, prefix: Text) -> Text
    decreases s.len(),
{
    if prefix.len() > 0 && text::begins(s, prefix) {
        without_prefixes(s.skip(prefix.len() as int), prefix)
    } else {
        s
    }
}

/// The file of a module below the library's root.
pub open spec fn file_of(root: Text, reference: Text) -> Text {
    path::under(root, without_prefixes(reference, "@kiln/"@) + ".toml"@)
}

/// `@kiln/desktop/gnome` becomes `<module root>/desktop/gnome.toml`.
pub fn module_file(root: &str, reference: &str) -> (out: String)
    ensures
        out@ == file_of(root@, reference@),
{
    let mut rest = reference.to_owned();
    proof {
        reveal_strlit("@kiln/");
    }
    while starts_with(rest.as_str(), "@kiln/")
        invariant
            "@kiln/"@.len() == 6,
            without_prefixes(rest@, "@kiln/"@) == without_prefixes(reference@, "@kiln/"@),
        decreases rest@.len(),
    {
        let len: usize = rest.as_str().unicode_len();
        assert(rest@.skip(6) == rest@.subrange(6, rest@.len() as int));
        rest = rest.as_str().substring_char(6, len).to_owned();
    }
    below(root, rest.concat(".toml").as_str())
}

/// The module library of the machine: where it is, and which of the module
/// files in it exist.
pub struct Library {
    pub root: String,
    pub files: Vec<String>,
}

/// What a `Library` holds, as contracts see it.
#[verifier::ext_equal]
pub struct LibraryView {
    pub root: Text,
    pub files: Seq<Text>,
}

impl View for Library {
    type V = LibraryView;

    open spec fn view(&self) -> LibraryView {
        LibraryView { root: self.root@, files: self.files.deep_view() }
    }
}

impl LibraryView {
    /// Whether the library has a module.
    pub open spec fn has(self, reference: Text) -> bool {
        self.files.contains(file_of(self.root, reference))
    }
}

impl Library {
    /// Whether the library has a module.
    pub fn has(&self, reference: &str) -> (r: bool)
        ensures
            r == self@.has(reference@),
    {
        let file = module_file(self.root.as_str(), reference);
        among(self.files.as_slice(), file.as_str())
    }
}

/// The files of all modules in the catalog, profiles first.
pub open spec fn catalog_files(root: Text) -> Seq<Text> {
    all_profiles().map_values(|p: ProfileView| file_of(root, p.module)) + module_files(
        root,
        all_extras(),
    )
}

/// The files of the modules among some entries.
pub open spec fn module_files(root: Text, entries: Seq<EntryView>) -> Seq<Text>
    decreases entries.len(),
{
    if entries.len() == 0 {
        Seq::empty()
    } else {
        match entries.last() {
            EntryView::Group(_) => module_files(root, entries.drop_last()),
            EntryView::Module(m) => module_files(root, entries.drop_last()).push(
                file_of(root, m.module),
            ),
        }
    }
}

/// The files that tell which modules of the catalog the machine's library has.
pub fn wanted_files(root: &str) -> (out: Vec<String>)
    ensures
        out.deep_view() == catalog_files(root@),
{
    let mut out: Vec<String> = Vec::new();
    let ghost front = all_profiles().map_values(|p: ProfileView| file_of(root@, p.module));
    let mut i: usize = 0;
    while i < PROFILES.len()
        invariant
            front == all_profiles().map_values(|p: ProfileView| file_of(root@, p.module)),
            i <= PROFILES@.len(),
            out.deep_view() == front.take(i as int),
        decreases PROFILES@.len() - i,
    {
        let row = PROFILES[i];
        emit(&mut out, module_file(root, row.0));
        i += 1;
    }
    assert(front.take(i as int) == front);
    let ghost all = all_extras();
    let mut k: usize = 0;
    assert(module_files(root@, all.take(0)) == Seq::<Text>::empty());
    assert(front + Seq::<Text>::empty() == front);
    while k < EXTRAS.len()
        invariant
            all == all_extras(),
            k <= EXTRAS@.len(),
            out.deep_view() == front + module_files(root@, all.take(k as int)),
        decreases EXTRAS@.len() - k,
    {
        let row = EXTRAS[k];
        assert(all.take(k + 1).drop_last() == all.take(k as int));
        assert(all.take(k + 1).last() == entry_of(row));
        if !row.0.is_empty() {
            let ghost so_far = module_files(root@, all.take(k as int));
            let file = module_file(root, row.0);
            emit(&mut out, file);
            assert((front + so_far).push(file@) == front + so_far.push(file@));
        }
        k += 1;
    }
    assert(all.take(k as int) == all);
    out
}

/// The profiles of a list that a library has.
pub open spec fn offered(list: Seq<ProfileView>, library: LibraryView) -> Seq<ProfileView>
    decreases list.len(),
{
    if list.len() == 0 {
        Seq::empty()
    } else if library.has(list.last().module) {
        offered(list.drop_last(), library).push(list.last())
    } else {
        offered(list.drop_last(), library)
    }
}

/// The profiles the machine's library actually has.
///
/// The catalog is a copy, and a copy can go stale: a module renamed in the
/// library would otherwise become an `include` that fails validation after the
/// disk has been erased. Filtering here turns that into an option that is
/// quietly not offered.
pub fn profiles(library: &Library) -> (out: Vec<Profile>)
    ensures
        out.deep_view() == offered(all_profiles(), library@),
{
    let mut out: Vec<Profile> = Vec::new();
    let ghost all = all_profiles();
    let mut i: usize = 0;
    assert(out.deep_view() == offered(all.take(0), library@));
    while i < PROFILES.len()
        invariant
            all == all_profiles(),
            i <= PROFILES@.len(),
            out.deep_view() == offered(all.take(i as int), library@),
        decreases PROFILES@.len() - i,
    {
        let row = PROFILES[i];
        let p = Profile { module: row.0, label: row.1, note: row.2 };
        assert(all.take(i + 1).drop_last() == all.take(i as int));
        assert(all.take(i + 1).last() == p@);
        if library.has(row.0) {
            let ghost before = out.deep_view();
            out.push(p);
            assert(out.deep_view() == before.push(p@));
        }
        i += 1;
    }
    assert(all.take(i as int) == all);
    out
}

/// The headings of a list, and the modules of it that a library has.
pub open spec fn present(list: Seq<EntryView>, library: LibraryView) -> Seq<EntryView>
    decreases list.len(),
{
    if list.len() == 0 {
        Seq::empty()
    } else {
        let front = present(list.drop_last(), library);
        match list.last() {
            EntryView::Group(_) => front.push(list.last()),
            EntryView::Module(m) => if library.has(m.module) {
                front.push(list.last())
            } else {
                front
            },
        }
    }
}

/// A list without the headings that no module follows.
pub open spec fn headed(list: Seq<EntryView>) -> Seq<EntryView>
    decreases list.len(),
{
    if list.len() == 0 {
        Seq::empty()
    } else {
        let rest = headed(list.drop_first());
        if list[0] is Module || (list.len() > 1 && list[1] is Module) {
            seq![list[0]] + rest
        } else {
            rest
        }
    }
}

/// The extras the machine's library actually has, dropping any group heading
/// left with nothing under it.
pub fn extras(library: &Library) -> (out: Vec<Entry>)
    ensures
        out.deep_view() == headed(present(all_extras(), library@)),
{
    let mut kept: Vec<Entry> = Vec::new();
    let ghost all = all_extras();
    let mut i: usize = 0;
    assert(kept.deep_view() == present(all.take(0), library@));
    while i < EXTRAS.len()
        invariant
            all == all_extras(),
            i <= EXTRAS@.len(),
            kept.deep_view() == present(all.take(i as int), library@),
        decreases EXTRAS@.len() - i,
    {
        let row = EXTRAS[i];
        assert(all.take(i + 1).drop_last() == all.take(i as int));
        assert(all.take(i + 1).last() == entry_of(row));
        let ghost before = kept.deep_view();
        if row.0.is_empty() {
            let e = Entry::Group(row.1);
            kept.push(e);
            assert(kept.deep_view() == before.push(e@));
        } else if library.has(row.0) {
            let e = Entry::Module(
                Module { module: row.0, label: row.1, note: row.2, default: row.3 },
            );
            kept.push(e);
            assert(kept.deep_view() == before.push(e@));
        }
        i += 1;
    }
    assert(all.take(i as int) == all);
    with_headings(kept)
}

/// A list without the headings that no module follows.
fn with_headings(kept: Vec<Entry>) -> (out: Vec<Entry>)
    ensures
        out.deep_view() == headed(kept.deep_view()),
{
    let ghost all = kept.deep_view();
    let mut out: Vec<Entry> = Vec::new();
    let mut i: usize = 0;
    assert(all.skip(0) == all);
    assert(out.deep_view() + headed(all) == headed(all));
    while i < kept.len()
        invariant
            all == kept.deep_view(),
            i <= kept.len(),
            out.deep_view() + headed(all.skip(i as int)) == headed(all),
        decreases kept.len() - i,
    {
        let ghost rest = all.skip(i as int);
        let ghost before = out.deep_view();
        let module: bool = is_module(&kept[i]);
        let followed: bool = i + 1 < kept.len() && is_module(&kept[i + 1]);
        assert(rest[0] == kept@[i as int]@);
        assert(rest.len() > 1 ==> rest[1] == kept@[i + 1]@);
        assert(rest.drop_first() == all.skip(i + 1));
        if module || followed {
            let e = copy_entry(&kept[i]);
            out.push(e);
            assert(out.deep_view() == before.push(e@));
            assert(before + (seq![rest[0]] + headed(all.skip(i + 1))) == before.push(rest[0])
                + headed(all.skip(i + 1)));
        }
        i += 1;
    }
    assert(out.deep_view() + Seq::<EntryView>::empty() == out.deep_view());
    out
}

/// Whether an entry is a module.
fn is_module(e: &Entry) -> (r: bool)
    ensures
        r == (e@ is Module),
{
    match e {
        Entry::Group(_) => false,
        Entry::Module(_) => true,
    }
}

/// The same entry once more.
fn copy_entry(e: &Entry) -> (out: Entry)
    ensures
        out@ == e@,
{
    match e {
        Entry::Group(g) => Entry::Group(*g),
        Entry::Module(m) => Entry::Module(
            Module { module: m.module, label: m.label, note: m.note, default: m.default },
        ),
    }
}

/// The pre-checked modules of a list.
pub open spec fn default_modules(list: Seq<EntryView>) -> Seq<Text>
    decreases list.len(),
{
    if list.len() == 0 {
        Seq::empty()
    } else {
        let front = default_modules(list.drop_last());
        match list.last() {
            EntryView::Module(m) => if m.default {
                front.push(m.module)
            } else {
                front
            },
            EntryView::Group(_) => front,
        }
    }
}

/// The modules that are chosen until the user says otherwise.
pub fn defaults(extras: &[Entry]) -> (out: Vec<String>)
    ensures
        out.deep_view() == default_modules(extras.deep_view()),
{
    let ghost all = extras.deep_view();
    let mut out: Vec<String> = Vec::new();
    let mut i: usize = 0;
    assert(out.deep_view() == default_modules(all.take(0)));
    while i < extras.len()
        invariant
            all == extras.deep_view(),
            i <= extras.len(),
            out.deep_view() == default_modules(all.take(i as int)),
        decreases extras.len() - i,
    {
        assert(all.take(i + 1).drop_last() == all.take(i as int));
        assert(all.take(i + 1).last() == extras@[i as int]@);
        if let Entry::Module(m) = &extras[i] {
            if m.default {
                emit(&mut out, m.module.to_owned());
            }
        }
        i += 1;
    }
    assert(all.take(i as int) == all);
    out
}

/// Whether a profile already has a module: every profile but the smallest lets
/// `wheel` sudo.
pub open spec fn covers(profile: Text, module: Text) -> bool {
    profile != MINIMAL@ && module == WHEEL_SUDO@
}

/// A list without the modules that a profile already has.
pub open spec fn uncovered(list: Seq<EntryView>, profile: Text) -> Seq<EntryView>
    decreases list.len(),
{
    if list.len() == 0 {
        Seq::empty()
    } else {
        let front = uncovered(list.drop_last(), profile);
        match list.last() {
            EntryView::Module(m) => if covers(profile, m.module) {
                front
            } else {
                front.push(list.last())
            },
            EntryView::Group(_) => front.push(list.last()),
        }
    }
}

/// What can be added to a profile: the extras that it does not have already,
/// without the headings that this leaves with nothing under them.
pub open spec fn beyond(extras: Seq<EntryView>, profile: Text) -> Seq<EntryView> {
    headed(uncovered(extras, profile))
}

/// What can be added to a profile.
pub fn extras_beyond(extras: &[Entry], profile: &str) -> (out: Vec<Entry>)
    ensures
        out.deep_view() == beyond(extras.deep_view(), profile@),
{
    let ghost all = extras.deep_view();
    let smallest = same(profile, MINIMAL);
    let mut kept: Vec<Entry> = Vec::new();
    let mut i: usize = 0;
    assert(kept.deep_view() == uncovered(all.take(0), profile@));
    while i < extras.len()
        invariant
            all == extras.deep_view(),
            smallest == (profile@ == MINIMAL@),
            i <= extras.len(),
            kept.deep_view() == uncovered(all.take(i as int), profile@),
        decreases extras.len() - i,
    {
        assert(all.take(i + 1).drop_last() == all.take(i as int));
        assert(all.take(i + 1).last() == extras@[i as int]@);
        let covered: bool = match &extras[i] {
            Entry::Module(m) => !smallest && same(m.module, WHEEL_SUDO),
            Entry::Group(_) => false,
        };
        if !covered {
            let ghost before = kept.deep_view();
            let e = copy_entry(&extras[i]);
            kept.push(e);
            assert(kept.deep_view() == before.push(e@));
        }
        i += 1;
    }
    assert(all.take(i as int) == all);
    with_headings(kept)
}

/// What a profile already covers is left out of what can be added to it, and
/// every other module stays.
pub proof fn lemma_covered_modules_are_left_out(
    extras: Seq<EntryView>,
    profile: Text,
    m: ModuleView,
)
    ensures
        beyond(extras, profile).contains(EntryView::Module(m)) <==> extras.contains(
            EntryView::Module(m),
        ) && !covers(profile, m.module),
{
    lemma_uncovered(extras, profile, m);
    lemma_headed_keeps_modules(uncovered(extras, profile), m);
    let kept = uncovered(extras, profile);
    lemma_headed_is_part(kept);
    let h = headed(kept);
    if h.contains(EntryView::Module(m)) {
        let k = choose|k: int| 0 <= k < h.len() && h[k] == EntryView::Module(m);
        assert(kept.contains(h[k]));
    }
}

proof fn lemma_uncovered(list: Seq<EntryView>, profile: Text, m: ModuleView)
    ensures
        uncovered(list, profile).contains(EntryView::Module(m)) <==> list.contains(
            EntryView::Module(m),
        ) && !covers(profile, m.module),
    decreases list.len(),
{
    if list.len() > 0 {
        let rest = list.drop_last();
        lemma_uncovered(rest, profile, m);
        let e = EntryView::Module(m);
        let front = uncovered(rest, profile);
        let all = uncovered(list, profile);
        if list.contains(e) {
            let k = choose|k: int| 0 <= k < list.len() && list[k] == e;
            if k < rest.len() {
                assert(rest[k] == e);
            }
        }
        if rest.contains(e) {
            let k = choose|k: int| 0 <= k < rest.len() && rest[k] == e;
            assert(list[k] == e);
        }
        assert(list[list.len() - 1] == list.last());
        if front.contains(e) {
            let k = choose|k: int| 0 <= k < front.len() && front[k] == e;
            assert(all[k] == e);
        }
        if all.contains(e) {
            let k = choose|k: int| 0 <= k < all.len() && all[k] == e;
            if k < front.len() {
                assert(front[k] == e);
            }
        }
        if list.last() == e && !covers(profile, m.module) {
            assert(all[front.len() as int] == e);
        }
    }
}

proof fn lemma_headed_keeps_modules(list: Seq<EntryView>, m: ModuleView)
    ensures
        list.contains(EntryView::Module(m)) ==> headed(list).contains(EntryView::Module(m)),
    decreases list.len(),
{
    if list.len() > 0 {
        let rest = list.drop_first();
        lemma_headed_keeps_modules(rest, m);
        let e = EntryView::Module(m);
        let h = headed(list);
        let hr = headed(rest);
        if list.contains(e) {
            let k = choose|k: int| 0 <= k < list.len() && list[k] == e;
            if k == 0 {
                assert(h[0] == e);
            } else {
                assert(rest[k - 1] == e);
                let j = choose|j: int| 0 <= j < hr.len() && hr[j] == e;
                if list[0] is Module || (list.len() > 1 && list[1] is Module) {
                    assert(h[j + 1] == e);
                } else {
                    assert(h[j] == e);
                }
            }
        }
    }
}

/// No heading outlives its group: in what is offered, a module follows every
/// heading.
pub proof fn lemma_headings_have_modules(list: Seq<EntryView>)
    ensures
        forall|i: int|
            0 <= i < headed(list).len() && (#[trigger] headed(list)[i] is Group) ==> i + 1
                < headed(list).len() && headed(list)[i + 1] is Module,
    decreases list.len(),
{
    if list.len() > 0 {
        let rest = list.drop_first();
        lemma_headings_have_modules(rest);
        let h = headed(list);
        if list.len() > 1 && list[1] is Module {
            assert(rest[0] is Module);
            assert(headed(rest)[0] == rest[0]);
        }
        assert forall|i: int| 0 <= i < h.len() && (#[trigger] h[i] is Group) implies i + 1 < h.len()
            && h[i + 1] is Module by {
            if list[0] is Module || (list.len() > 1 && list[1] is Module) {
                if i > 0 {
                    assert(h[i] == headed(rest)[i - 1]);
                    assert(h[i + 1] == headed(rest)[i]);
                } else {
                    assert(h[1] == headed(rest)[0]);
                }
            }
        }
    }
}

/// Every profile on offer is one of the catalog that the library has.
pub proof fn lemma_offered_profiles_exist(list: Seq<ProfileView>, library: LibraryView)
    ensures
        forall|i: int|
            0 <= i < offered(list, library).len() ==> library.has(
                (#[trigger] offered(list, library)[i]).module,
            ) && list.contains(offered(list, library)[i]),
    decreases list.len(),
{
    if list.len() > 0 {
        let rest = list.drop_last();
        lemma_offered_profiles_exist(rest, library);
        let o = offered(list, library);
        assert forall|i: int| 0 <= i < o.len() implies library.has((#[trigger] o[i]).module)
            && list.contains(o[i]) by {
            if i < offered(rest, library).len() {
                assert(o[i] == offered(rest, library)[i]);
                let k = choose|k: int| 0 <= k < rest.len() && rest[k] == o[i];
                assert(list[k] == o[i]);
            } else {
                assert(list[list.len() - 1] == o[i]);
            }
        }
    }
}

/// Every module on offer is one that the library has.
pub proof fn lemma_offered_modules_exist(list: Seq<EntryView>, library: LibraryView)
    ensures
        forall|i: int|
            0 <= i < headed(present(list, library)).len() ==> (#[trigger] headed(
                present(list, library),
            )[i] matches EntryView::Module(m) ==> library.has(m.module)),
{
    lemma_present(list, library);
    lemma_headed_is_part(present(list, library));
    let kept = present(list, library);
    let h = headed(kept);
    assert forall|i: int| 0 <= i < h.len() implies (#[trigger] h[i] matches EntryView::Module(m)
        ==> library.has(m.module)) by {
        assert(kept.contains(h[i]));
        let k = choose|k: int| 0 <= k < kept.len() && kept[k] == h[i];
        assert(kept[k] matches EntryView::Module(m) ==> library.has(m.module));
    }
}

proof fn lemma_present(list: Seq<EntryView>, library: LibraryView)
    ensures
        forall|i: int|
            0 <= i < present(list, library).len() ==> (#[trigger] present(
                list,
                library,
            )[i] matches EntryView::Module(m) ==> library.has(m.module)),
    decreases list.len(),
{
    if list.len() > 0 {
        lemma_present(list.drop_last(), library);
        let front = present(list.drop_last(), library);
        assert forall|i: int| 0 <= i < present(list, library).len() implies (#[trigger] present(
            list,
            library,
        )[i] matches EntryView::Module(m) ==> library.has(m.module)) by {
            if i < front.len() {
                assert(present(list, library)[i] == front[i]);
            }
        }
    }
}

proof fn lemma_headed_is_part(list: Seq<EntryView>)
    ensures
        forall|i: int| 0 <= i < headed(list).len() ==> list.contains(#[trigger] headed(list)[i]),
    decreases list.len(),
{
    if list.len() > 0 {
        let rest = list.drop_first();
        lemma_headed_is_part(rest);
        let h = headed(list);
        assert forall|i: int| 0 <= i < h.len() implies list.contains(#[trigger] h[i]) by {
            if list[0] is Module || (list.len() > 1 && list[1] is Module) {
                if i == 0 {
                    assert(list[0] == h[0]);
                } else {
                    assert(h[i] == headed(rest)[i - 1]);
                }
            } else {
                assert(h[i] == headed(rest)[i]);
            }
            if rest.contains(h[i]) {
                let k = choose|k: int| 0 <= k < rest.len() && rest[k] == h[i];
                assert(list[k + 1] == h[i]);
            }
        }
    }
}

// ---------------------------------------------------------------------------
// Locales, timezones and keymaps
// ---------------------------------------------------------------------------

/// A list without its first `x`.
pub open spec fn without_first(list: Seq<Text>, x: Text) -> Seq<Text>
    decreases list.len(),
{
    if list.len() == 0 {
        list
    } else if list[0] == x {
        list.drop_first()
    } else {
        seq![list[0]] + without_first(list.drop_first(), x)
    }
}

/// A list with `x` moved to its front, if it is there.
pub open spec fn preferred(list: Seq<Text>, x: Text) -> Seq<Text> {
    if list.contains(x) {
        seq![x] + without_first(list, x)
    } else {
        list
    }
}

proof fn lemma_without_first(list: Seq<Text>, x: Text, i: int)
    requires
        0 <= i < list.len(),
        list[i] == x,
        forall|j: int| 0 <= j < i ==> list[j] != x,
    ensures
        without_first(list, x) == list.remove(i),
    decreases list.len(),
{
    if i == 0 {
        assert(list.drop_first() == list.remove(0));
    } else {
        let rest = list.drop_first();
        assert(rest[i - 1] == x);
        assert forall|j: int| 0 <= j < i - 1 implies rest[j] != x by {
            assert(rest[j] == list[j + 1]);
        }
        lemma_without_first(rest, x, i - 1);
        assert(seq![list[0]] + rest.remove(i - 1) == list.remove(i));
    }
}

/// Moves one entry to the front, if it is present. The first row of a filtered
/// list is what most people press enter on, and it should be the answer that is
/// right most often rather than whatever sorts first.
pub fn prefer(list: &mut Vec<String>, first: &str)
    ensures
        final(list).deep_view() == preferred(old(list).deep_view(), first@),
{
    let ghost all = list.deep_view();
    let mut i: usize = 0;
    while i < list.len()
        invariant
            list.deep_view() == all,
            all == old(list).deep_view(),
            i <= list.len(),
            forall|j: int| 0 <= j < i ==> all[j] != first@,
        decreases list.len() - i,
    {
        assert(all[i as int] == list@[i as int]@);
        if same(list[i].as_str(), first) {
            let it = list.remove(i);
            assert(list.deep_view() == all.remove(i as int));
            list.insert(0, it);
            assert(list.deep_view() == seq![first@] + all.remove(i as int));
            proof {
                lemma_without_first(all, first@, i as int);
            }
            return ;
        }
        i += 1;
    }
}

/// Moving an entry to the front neither loses nor duplicates anything: the list
/// holds what it held, each as often as before, and the preferred entry leads.
pub proof fn lemma_preferring_moves(list: Seq<Text>, x: Text)
    ensures
        preferred(list, x).to_multiset() == list.to_multiset(),
        preferred(list, x).len() == list.len(),
        list.contains(x) ==> preferred(list, x)[0] == x,
        !list.contains(x) ==> preferred(list, x) == list,
{
    if list.contains(x) {
        let i = lemma_earliest(list, x);
        lemma_without_first(list, x, i);
        let rest = list.remove(i);
        broadcast use vstd::seq_lib::group_to_multiset_ensures;

        vstd::seq_lib::lemma_multiset_commutative(seq![x], rest);
        assert(seq![x] =~= Seq::<Text>::empty().push(x));
        assert(seq![x].to_multiset() =~= Seq::<Text>::empty().to_multiset().insert(x));
        assert(rest.to_multiset() =~= list.to_multiset().remove(x));
        assert(list.to_multiset().count(x) > 0);
        assert(preferred(list, x).to_multiset() =~= list.to_multiset());
    }
}

proof fn lemma_earliest(list: Seq<Text>, x: Text) -> (i: int)
    requires
        list.contains(x),
    ensures
        0 <= i < list.len(),
        list[i] == x,
        forall|j: int| 0 <= j < i ==> list[j] != x,
    decreases list.len(),
{
    if list[0] == x {
        0
    } else {
        let rest = list.drop_first();
        let k = choose|k: int| 0 <= k < list.len() && list[k] == x;
        assert(rest[k - 1] == x);
        let i = lemma_earliest(rest, x);
        assert forall|j: int| 0 <= j < i + 1 implies list[j] != x by {
            if j > 0 {
                assert(rest[j - 1] == list[j]);
            }
        }
        i + 1
    }
}

/// What the locale question offers when the system has no list of its own.
pub const COMMON_LOCALES: [&'static str; 4] = [
    "en_US.UTF-8",
    "en_GB.UTF-8",
    "de_DE.UTF-8",
    "fr_FR.UTF-8",
];

/// What the keymap question offers when the system has no list of its own.
pub const COMMON_KEYMAPS: [&'static str; 8] = [
    "us",
    "uk",
    "de",
    "fr",
    "es",
    "it",
    "dvorak",
    "colemak",
];

/// The texts of some literals.
pub open spec fn texts(list: Seq<&'static str>) -> Seq<Text> {
    list.map_values(|s: &'static str| s@)
}

/// Copies of some literals.
fn copies(list: &[&'static str]) -> (out: Vec<String>)
    ensures
        out.deep_view() == texts(list@),
{
    let mut out: Vec<String> = Vec::new();
    let mut i: usize = 0;
    assert(out.deep_view() == texts(list@).take(0));
    while i < list.len()
        invariant
            i <= list.len(),
            out.deep_view() == texts(list@).take(i as int),
        decreases list.len() - i,
    {
        let s = list[i];
        emit(&mut out, s.to_owned());
        assert(texts(list@).take(i + 1) == texts(list@).take(i as int).push(s@));
        i += 1;
    }
    assert(texts(list@).take(i as int) == texts(list@));
    out
}

/// The first words of some lines, as far as they name a UTF-8 locale.
pub open spec fn utf8_names(lines: Seq<Text>) -> Seq<Text>
    decreases lines.len(),
{
    if lines.len() == 0 {
        Seq::empty()
    } else {
        let front = utf8_names(lines.drop_last());
        let words = text::words(lines.last());
        if words.len() > 0 && text::ends(words[0], ".UTF-8"@) {
            front.push(words[0])
        } else {
            front
        }
    }
}

/// What a list came to, or what stands in for it when it came to nothing, in
/// order and with one entry first.
pub open spec fn question_list(found: Seq<Text>, common: Seq<Text>, first: Text) -> Seq<Text> {
    preferred(
        text::sorted_set(
            if found.len() == 0 {
                common
            } else {
                found
            },
        ),
        first,
    )
}

/// The locales offered, given glibc's list of them.
pub open spec fn locale_list(supported: Option<Text>) -> Seq<Text> {
    question_list(
        match supported {
            Some(t) => utf8_names(text::text_lines(t)),
            None => Seq::empty(),
        },
        texts(COMMON_LOCALES@),
        "en_US.UTF-8"@,
    )
}

/// Every UTF-8 locale glibc knows about, `en_US.UTF-8` first if it is there.
///
/// `supported` is what `/usr/share/i18n/SUPPORTED` holds, if it can be read: it
/// is glibc's own list and the file `locale-gen` reads its charmaps out of. The
/// fallback exists so a stripped image still gets a working question rather
/// than an empty screen.
pub fn locales(supported: &Option<String>) -> (out: Vec<String>)
    ensures
        out.deep_view() == locale_list(supported.deep_view()),
{
    let mut found: Vec<String> = Vec::new();
    if let Some(t) = supported {
        let lines = lines_of(t.as_str());
        let ghost all = lines.deep_view();
        let mut i: usize = 0;
        assert(found.deep_view() == utf8_names(all.take(0)));
        while i < lines.len()
            invariant
                all == lines.deep_view(),
                i <= lines.len(),
                found.deep_view() == utf8_names(all.take(i as int)),
            decreases lines.len() - i,
        {
            assert(all.take(i + 1).drop_last() == all.take(i as int));
            assert(all.take(i + 1).last() == lines@[i as int]@);
            let words = words_of(lines[i].as_str());
            assert(words.len() == words.deep_view().len());
            if words.len() > 0 {
                assert(words.deep_view()[0] == words@[0]@);
                if ends_with(words[0].as_str(), ".UTF-8") {
                    emit(&mut found, words[0].clone());
                }
            }
            i += 1;
        }
        assert(all.take(i as int) == all);
    }
    assert(found.len() == found.deep_view().len());
    if found.len() == 0 {
        assert(found.deep_view() == Seq::<Text>::empty());
        found = copies(&COMMON_LOCALES);
    }
    let mut out = sort_unique(found.as_slice());
    prefer(&mut out, "en_US.UTF-8");
    out
}

/// The trimmed lines of a text that are not empty.
pub open spec fn filled_lines(lines: Seq<Text>) -> Seq<Text>
    decreases lines.len(),
{
    if lines.len() == 0 {
        Seq::empty()
    } else {
        let front = filled_lines(lines.drop_last());
        let t = text::trim(lines.last());
        if t.len() > 0 {
            front.push(t)
        } else {
            front
        }
    }
}

/// The keymaps offered, given systemd's list of them.
pub open spec fn keymap_list(listed: Result<Text, run::FailedView>) -> Seq<Text> {
    question_list(
        match listed {
            Ok(t) => filled_lines(text::text_lines(t)),
            Err(_) => Seq::empty(),
        },
        texts(COMMON_KEYMAPS@),
        "us"@,
    )
}

/// The command that lists the keymaps.
pub const KEYMAPS: [&'static str; 3] = ["localectl", "list-keymaps", "--no-pager"];

/// Console keymaps, from systemd: it is the thing that will consume the answer,
/// so its idea of the list is the only one that matters.
pub fn keymaps(listed: &Result<String, Failed>) -> (out: Vec<String>)
    ensures
        out.deep_view() == keymap_list(run::answer_view(*listed)),
{
    let mut found: Vec<String> = Vec::new();
    if let Ok(t) = listed {
        let lines = lines_of(t.as_str());
        let ghost all = lines.deep_view();
        let mut i: usize = 0;
        assert(found.deep_view() == filled_lines(all.take(0)));
        while i < lines.len()
            invariant
                all == lines.deep_view(),
                i <= lines.len(),
                found.deep_view() == filled_lines(all.take(i as int)),
            decreases lines.len() - i,
        {
            assert(all.take(i + 1).drop_last() == all.take(i as int));
            assert(all.take(i + 1).last() == lines@[i as int]@);
            let t = trimmed(lines[i].as_str());
            if !t.as_str().is_empty() {
                emit(&mut found, t);
            }
            i += 1;
        }
        assert(all.take(i as int) == all);
    }
    assert(found.len() == found.deep_view().len());
    if found.len() == 0 {
        assert(found.deep_view() == Seq::<Text>::empty());
        found = copies(&COMMON_KEYMAPS);
    }
    let mut out = sort_unique(found.as_slice());
    prefer(&mut out, "us");
    out
}


/// A directory of the timezone tree below an area, or a zone in it.
pub struct City {
    pub name: String,
    /// What a directory holds; `None` for a zone.
    pub zones: Option<Vec<String>>,
}

/// What a `City` holds, as contracts see it.
#[verifier::ext_equal]
pub struct CityView {
    pub name: Text,
    pub zones: Option<Seq<Text>>,
}

impl View for City {
    type V = CityView;

    open spec fn view(&self) -> CityView {
        CityView {
            name: self.name@,
            zones: match self.zones {
                Some(z) => Some(z.deep_view()),
                None => None,
            },
        }
    }
}

impl DeepView for City {
    type V = CityView;

    open spec fn deep_view(&self) -> CityView {
        self@
    }
}

/// An entry at the top of the timezone tree.
pub struct Area {
    pub name: String,
    /// What a directory holds; `None` for a file.
    pub cities: Option<Vec<City>>,
}

/// What an `Area` holds, as contracts see it.
#[verifier::ext_equal]
pub struct AreaView {
    pub name: Text,
    pub cities: Option<Seq<CityView>>,
}

impl View for Area {
    type V = AreaView;

    open spec fn view(&self) -> AreaView {
        AreaView {
            name: self.name@,
            cities: match self.cities {
                Some(c) => Some(c.deep_view()),
                None => None,
            },
        }
    }
}

impl DeepView for Area {
    type V = AreaView;

    open spec fn deep_view(&self) -> AreaView {
        self@
    }
}

/// Whether a character has Unicode's `Uppercase` property.
pub uninterp spec fn uppercase(c: char) -> bool;

/// `char::is_uppercase`: whether the character has Unicode's `Uppercase`
/// property. The answer depends on the character alone; which characters have
/// the property is left to Unicode's tables.
#[verifier::external_body]
fn is_uppercase(c: char) -> (r: bool)
    ensures
        r == uppercase(c),
{
    c.is_uppercase()
}

/// Whether a name begins with a capital letter.
pub open spec fn capital(name: Text) -> bool {
    name.len() > 0 && uppercase(name[0])
}

/// Zone names one below the other: each with `prefix` and a separator in front.
pub open spec fn prefixed(prefix: Text, names: Seq<Text>) -> Seq<Text> {
    names.map_values(|n: Text| prefix + "/"@ + n)
}

/// The zones of a city directory, or the city as a zone.
pub open spec fn city_zones(area: Text, city: CityView) -> Seq<Text> {
    match city.zones {
        Some(names) => prefixed(area + "/"@ + city.name, names),
        None => seq![area + "/"@ + city.name],
    }
}

/// The zones of some cities of an area.
pub open spec fn cities_zones(area: Text, cities: Seq<CityView>) -> Seq<Text>
    decreases cities.len(),
{
    if cities.len() == 0 {
        Seq::empty()
    } else {
        cities_zones(area, cities.drop_last()) + city_zones(area, cities.last())
    }
}

/// The zones of an entry at the top of the tree. The tree also holds `posix`,
/// `right`, `zone.tab` and the legacy single-word zones; only the capitalised
/// directories are areas.
pub open spec fn area_zones(area: AreaView, capital: bool) -> Seq<Text> {
    match area.cities {
        Some(cities) => if capital && area.name != "posix"@ && area.name != "right"@ && area.name
            != "SystemV"@ {
            cities_zones(area.name, cities)
        } else {
            Seq::empty()
        },
        None => Seq::empty(),
    }
}

/// The zones of some entries at the top of the tree.
pub open spec fn all_zones(areas: Seq<AreaView>) -> Seq<Text>
    decreases areas.len(),
{
    if areas.len() == 0 {
        Seq::empty()
    } else {
        all_zones(areas.drop_last()) + area_zones(areas.last(), capital(areas.last().name))
    }
}

/// The timezones offered, given the zones of the tree.
pub open spec fn zone_list(zones: Seq<Text>) -> Seq<Text> {
    preferred(text::sorted_set(zones.push("UTC"@)), "UTC"@)
}

/// The timezones offered, given the tree.
pub open spec fn timezone_list(tree: Option<Seq<AreaView>>) -> Seq<Text> {
    match tree {
        Some(areas) => zone_list(all_zones(areas)),
        None => seq!["UTC"@],
    }
}

/// Appends the zones of one city of an area.
fn push_city(out: &mut Vec<String>, area: &str, city: &City)
    ensures
        final(out).deep_view() == old(out).deep_view() + city_zones(area@, city@),
{
    let ghost before = out.deep_view();
    let at = area.to_owned().concat("/").concat(city.name.as_str());
    match &city.zones {
        Some(names) => {
            let ghost all = prefixed(at@, names.deep_view());
            let mut i: usize = 0;
            assert(before + all.take(0) == before);
            while i < names.len()
                invariant
                    all == prefixed(at@, names.deep_view()),
                    i <= names.len(),
                    out.deep_view() == before + all.take(i as int),
                decreases names.len() - i,
            {
                let zone = at.clone().concat("/").concat(names[i].as_str());
                assert(all[i as int] == zone@);
                assert(all.take(i + 1) == all.take(i as int).push(zone@));
                emit(out, zone);
                assert(out.deep_view() == before + all.take(i + 1));
                i += 1;
            }
            assert(all.take(i as int) == all);
        },
        None => {
            emit(out, at);
            assert(out.deep_view() == before + seq![at@]);
        },
    }
}

/// The zones of an entry at the top of the tree, given whether its name begins
/// with a capital letter.
pub fn zones_of(area: &Area, capital: bool) -> (out: Vec<String>)
    ensures
        out.deep_view() == area_zones(area@, capital),
{
    let mut out: Vec<String> = Vec::new();
    let name = area.name.as_str();
    assert(out.deep_view() == Seq::<Text>::empty());
    if !capital || same(name, "posix") || same(name, "right") || same(name, "SystemV") {
        return out;
    }
    if let Some(cities) = &area.cities {
        let ghost all = cities.deep_view();
        let mut i: usize = 0;
        assert(out.deep_view() == cities_zones(name@, all.take(0)));
        while i < cities.len()
            invariant
                all == cities.deep_view(),
                i <= cities.len(),
                out.deep_view() == cities_zones(name@, all.take(i as int)),
            decreases cities.len() - i,
        {
            assert(all.take(i + 1).drop_last() == all.take(i as int));
            assert(all.take(i + 1).last() == cities@[i as int]@);
            push_city(&mut out, name, &cities[i]);
            i += 1;
        }
        assert(all.take(i as int) == all);
    }
    out
}

/// The list to choose from, made of the zones of the tree: `UTC` is always in
/// it, and leads.
pub fn offer_zones(zones: Vec<String>) -> (out: Vec<String>)
    ensures
        out.deep_view() == zone_list(zones.deep_view()),
{
    let mut all = zones;
    emit(&mut all, "UTC".to_owned());
    let mut out = sort_unique(all.as_slice());
    prefer(&mut out, "UTC");
    out
}

/// `Area/City` for every zone in the tzdata tree; `UTC` alone where there is no
/// tree to read.
pub fn timezones(tree: &Option<Vec<Area>>) -> (out: Vec<String>)
    ensures
        out.deep_view() == timezone_list(
            match *tree {
                Some(areas) => Some(areas.deep_view()),
                None => None,
            },
        ),
{
    match tree {
        None => {
            let mut out: Vec<String> = Vec::new();
            emit(&mut out, "UTC".to_owned());
            assert(out.deep_view() == seq!["UTC"@]);
            out
        },
        Some(areas) => {
            let ghost all = areas.deep_view();
            let mut zones: Vec<String> = Vec::new();
            let mut i: usize = 0;
            assert(zones.deep_view() == all_zones(all.take(0)));
            while i < areas.len()
                invariant
                    all == areas.deep_view(),
                    i <= areas.len(),
                    zones.deep_view() == all_zones(all.take(i as int)),
                decreases areas.len() - i,
            {
                assert(all.take(i + 1).drop_last() == all.take(i as int));
                assert(all.take(i + 1).last() == areas@[i as int]@);
                let area = &areas[i];
                let capital: bool = area.name.as_str().unicode_len() > 0 && is_uppercase(
                    area.name.as_str().get_char(0),
                );
                let mut found = zones_of(area, capital);
                let ghost before = zones.deep_view();
                let ghost added = found.deep_view();
                zones.append(&mut found);
                assert(zones.deep_view() == before + added);
                i += 1;
            }
            assert(all.take(i as int) == all);
            offer_zones(zones)
        },
    }
}

/// `UTC` is always among the timezones, and leads them.
pub proof fn lemma_utc_leads(tree: Option<Seq<AreaView>>)
    ensures
        timezone_list(tree).len() > 0,
        timezone_list(tree)[0] == "UTC"@,
{
    if let Some(areas) = tree {
        let zones = all_zones(areas).push("UTC"@);
        text::lemma_sorted_set(zones);
        assert(zones[zones.len() - 1] == "UTC"@);
        assert(zones.contains("UTC"@));
    }
}

proof fn lemma_question_list(found: Seq<Text>, common: Seq<Text>, first: Text)
    requires
        common.len() > 0,
    ensures
        question_list(found, common, first).len() > 0,
{
    let all = if found.len() == 0 {
        common
    } else {
        found
    };
    text::lemma_sorted_set(all);
    assert(all.contains(all[0]));
    assert(text::sorted_set(all).contains(all[0]));
}

/// No question about a locale or a keymap is an empty screen.
pub proof fn lemma_questions_have_answers(
    supported: Option<Text>,
    listed: Result<Text, run::FailedView>,
)
    ensures
        locale_list(supported).len() > 0,
        keymap_list(listed).len() > 0,
{
    lemma_question_list(
        match supported {
            Some(t) => utf8_names(text::text_lines(t)),
            None => Seq::empty(),
        },
        texts(COMMON_LOCALES@),
        "en_US.UTF-8"@,
    );
    lemma_question_list(
        match listed {
            Ok(t) => filled_lines(text::text_lines(t)),
            Err(_) => Seq::empty(),
        },
        texts(COMMON_KEYMAPS@),
        "us"@,
    );
}

proof fn lemma_ascending_has_no_duplicates(list: Seq<Text>)
    requires
        text::ascending(list),
    ensures
        list.no_duplicates(),
{
    assert forall|i: int, j: int| 0 <= i < list.len() && 0 <= j < list.len() && i != j implies list[i]
        != list[j] by {
        text::lemma_precedes_total(list[i], list[j]);
    }
}

proof fn lemma_preferred_once(list: Seq<Text>, x: Text)
    requires
        list.no_duplicates(),
    ensures
        preferred(list, x).no_duplicates(),
{
    if list.contains(x) {
        let i = lemma_earliest(list, x);
        lemma_without_first(list, x, i);
        let out = preferred(list, x);
        assert forall|j: int, k: int| 0 <= j < out.len() && 0 <= k < out.len() && j != k implies out[j]
            != out[k] by {
            let from_j = if j == 0 {
                i
            } else if j - 1 < i {
                j - 1
            } else {
                j
            };
            let from_k = if k == 0 {
                i
            } else if k - 1 < i {
                k - 1
            } else {
                k
            };
            assert(out[j] == list[from_j]);
            assert(out[k] == list[from_k]);
        }
    }
}

/// No locale, keymap or timezone is offered twice.
pub proof fn lemma_each_offered_once(
    supported: Option<Text>,
    listed: Result<Text, run::FailedView>,
    tree: Option<Seq<AreaView>>,
)
    ensures
        locale_list(supported).no_duplicates(),
        keymap_list(listed).no_duplicates(),
        timezone_list(tree).no_duplicates(),
{
    let locales = match supported {
        Some(t) => utf8_names(text::text_lines(t)),
        None => Seq::empty(),
    };
    let locales = if locales.len() == 0 {
        texts(COMMON_LOCALES@)
    } else {
        locales
    };
    text::lemma_sorted_set(locales);
    lemma_ascending_has_no_duplicates(text::sorted_set(locales));
    lemma_preferred_once(text::sorted_set(locales), "en_US.UTF-8"@);
    let maps = match listed {
        Ok(t) => filled_lines(text::text_lines(t)),
        Err(_) => Seq::empty(),
    };
    let maps = if maps.len() == 0 {
        texts(COMMON_KEYMAPS@)
    } else {
        maps
    };
    text::lemma_sorted_set(maps);
    lemma_ascending_has_no_duplicates(text::sorted_set(maps));
    lemma_preferred_once(text::sorted_set(maps), "us"@);
    if let Some(areas) = tree {
        let zones = all_zones(areas).push("UTC"@);
        text::lemma_sorted_set(zones);
        lemma_ascending_has_no_duplicates(text::sorted_set(zones));
        lemma_preferred_once(text::sorted_set(zones), "UTC"@);
    }
}

/// A profile is offered exactly when it is in the catalog and the library has
/// it.
pub proof fn lemma_offered_exactly(list: Seq<ProfileView>, library: LibraryView, p: ProfileView)
    ensures
        offered(list, library).contains(p) <==> list.contains(p) && library.files.contains(
            file_of(library.root, p.module),
        ),
    decreases list.len(),
{
    if list.len() > 0 {
        let rest = list.drop_last();
        lemma_offered_exactly(rest, library, p);
        let all = offered(list, library);
        let front = offered(rest, library);
        if list.contains(p) {
            let k = choose|k: int| 0 <= k < list.len() && list[k] == p;
            if k < rest.len() {
                assert(rest[k] == p);
            }
        }
        if rest.contains(p) {
            let k = choose|k: int| 0 <= k < rest.len() && rest[k] == p;
            assert(list[k] == p);
        }
        assert(list[list.len() - 1] == list.last());
        if front.contains(p) {
            let k = choose|k: int| 0 <= k < front.len() && front[k] == p;
            assert(all[k] == p);
        }
        if all.contains(p) {
            let k = choose|k: int| 0 <= k < all.len() && all[k] == p;
            if k < front.len() {
                assert(front[k] == p);
            }
        }
        if list.last() == p && library.has(p.module) {
            assert(all[front.len() as int] == p);
        }
    }
}

/// A module is offered exactly when it is in the catalog and the library has
/// it.
pub proof fn lemma_extras_exactly(list: Seq<EntryView>, library: LibraryView, m: ModuleView)
    ensures
        headed(present(list, library)).contains(EntryView::Module(m)) <==> list.contains(
            EntryView::Module(m),
        ) && library.files.contains(file_of(library.root, m.module)),
{
    let kept = present(list, library);
    lemma_present_exactly(list, library, m);
    lemma_headed_keeps_modules(kept, m);
    lemma_headed_is_part(kept);
    let h = headed(kept);
    if h.contains(EntryView::Module(m)) {
        let k = choose|k: int| 0 <= k < h.len() && h[k] == EntryView::Module(m);
        assert(kept.contains(h[k]));
    }
}

proof fn lemma_present_exactly(list: Seq<EntryView>, library: LibraryView, m: ModuleView)
    ensures
        present(list, library).contains(EntryView::Module(m)) <==> list.contains(
            EntryView::Module(m),
        ) && library.has(m.module),
    decreases list.len(),
{
    if list.len() > 0 {
        let e = EntryView::Module(m);
        let rest = list.drop_last();
        lemma_present_exactly(rest, library, m);
        let all = present(list, library);
        let front = present(rest, library);
        if list.contains(e) {
            let k = choose|k: int| 0 <= k < list.len() && list[k] == e;
            if k < rest.len() {
                assert(rest[k] == e);
            }
        }
        if rest.contains(e) {
            let k = choose|k: int| 0 <= k < rest.len() && rest[k] == e;
            assert(list[k] == e);
        }
        assert(list[list.len() - 1] == list.last());
        if front.contains(e) {
            let k = choose|k: int| 0 <= k < front.len() && front[k] == e;
            assert(all[k] == e);
        }
        if all.contains(e) {
            let k = choose|k: int| 0 <= k < all.len() && all[k] == e;
            if k < front.len() {
                assert(front[k] == e);
            }
        }
        if list.last() == e && library.has(m.module) {
            assert(all[front.len() as int] == e);
        }
    }
}

/// What is chosen from the start is exactly what the catalog pre-checks, among
/// what is offered.
pub proof fn lemma_defaults_exactly(list: Seq<EntryView>, name: Text)
    ensures
        default_modules(list).contains(name) <==> exists|i: int|
            0 <= i < list.len() && (#[trigger] list[i] matches EntryView::Module(m) && m.default
                && m.module == name),
    decreases list.len(),
{
    if list.len() > 0 {
        let rest = list.drop_last();
        assert(forall|i: int| 0 <= i < rest.len() ==> #[trigger] rest[i] == list[i]);
        lemma_defaults_exactly(rest, name);
        let all = default_modules(list);
        let front = default_modules(rest);
        let last = list[list.len() - 1];
        if front.contains(name) {
            let k = choose|k: int| 0 <= k < front.len() && front[k] == name;
            assert(all[k] == name);
            let i = choose|i: int|
                0 <= i < rest.len() && (#[trigger] rest[i] matches EntryView::Module(m)
                    && m.default && m.module == name);
            assert(list[i] == rest[i]);
        }
        if all.contains(name) {
            let k = choose|k: int| 0 <= k < all.len() && all[k] == name;
            if k < front.len() {
                assert(front[k] == name);
            } else {
                assert(last matches EntryView::Module(m) && m.default && m.module == name);
            }
        }
        if exists|i: int|
            0 <= i < list.len() && (#[trigger] list[i] matches EntryView::Module(m) && m.default
                && m.module == name) {
            let i = choose|i: int|
                0 <= i < list.len() && (#[trigger] list[i] matches EntryView::Module(m)
                    && m.default && m.module == name);
            if i < rest.len() {
                assert(rest[i] == list[i]);
            } else {
                assert(all[front.len() as int] == name);
            }
        }
    }
}

/// The file of a module is its reference without the namespace, below the root
/// and with the ending of its format; the namespace makes no difference, and a
/// library has a module exactly when that file is there.
pub proof fn lemma_module_files(library: LibraryView, reference: Text)
    ensures
        file_of(library.root, "@kiln/"@ + reference) == file_of(library.root, reference),
        !text::begins(reference, "@kiln/"@) && (reference.len() == 0 || reference[0] != '/')
            && library.root.len() > 0 && library.root.last() != '/' ==> file_of(
            library.root,
            reference,
        ) == library.root + "/"@ + reference + ".toml"@,
        library.has(reference) <==> library.files.contains(file_of(library.root, reference)),
{
    reveal_strlit("@kiln/");
    reveal_strlit(".toml");
    let long = "@kiln/"@ + reference;
    assert(long.subrange(0, 6) =~= "@kiln/"@);
    assert(long.skip(6) =~= reference);
    if !text::begins(reference, "@kiln/"@) && (reference.len() == 0 || reference[0] != '/')
        && library.root.len() > 0 && library.root.last() != '/' {
        let file = reference + ".toml"@;
        assert(file[0] != '/');
        assert(file_of(library.root, reference) =~= library.root + "/"@ + reference + ".toml"@);
    }
}

proof fn lemma_question_list_exactly(
    found: Seq<Text>,
    common: Seq<Text>,
    first: Text,
    t: Text,
)
    ensures
        question_list(found, common, first).contains(t) <==> (if found.len() == 0 {
            common.contains(t)
        } else {
            found.contains(t)
        }),
{
    broadcast use vstd::seq_lib::group_to_multiset_ensures;

    let all = if found.len() == 0 {
        common
    } else {
        found
    };
    let sorted = text::sorted_set(all);
    text::lemma_sorted_set(all);
    lemma_preferring_moves(sorted, first);
    let out = preferred(sorted, first);
    assert(out.contains(t) <==> out.to_multiset().count(t) > 0);
    assert(sorted.contains(t) <==> sorted.to_multiset().count(t) > 0);
}

/// A locale is offered exactly when it is the first word of a line of glibc's
/// list and ends in `.UTF-8`; where the list has none, the usual ones are.
pub proof fn lemma_locales_exactly(supported: Option<Text>, name: Text)
    ensures
        ({
            &&& some_line_names(supported, name) ==> locale_list(supported).contains(name)
            &&& locale_list(supported).contains(name) ==> some_line_names(supported, name) || seq![
                "en_US.UTF-8"@,
                "en_GB.UTF-8"@,
                "de_DE.UTF-8"@,
                "fr_FR.UTF-8"@,
            ].contains(name)
        }),
{
    let lines = match supported {
        Some(t) => text::text_lines(t),
        None => Seq::<Text>::empty(),
    };
    let found = match supported {
        Some(t) => utf8_names(text::text_lines(t)),
        None => Seq::<Text>::empty(),
    };
    assert(texts(COMMON_LOCALES@) =~= seq![
        "en_US.UTF-8"@,
        "en_GB.UTF-8"@,
        "de_DE.UTF-8"@,
        "fr_FR.UTF-8"@,
    ]);
    lemma_utf8_names(lines, name);
    assert(found =~= utf8_names(lines));
    lemma_question_list_exactly(found, texts(COMMON_LOCALES@), "en_US.UTF-8"@, name);
}

/// Whether some line of glibc's list names a UTF-8 locale.
pub open spec fn some_line_names(supported: Option<Text>, name: Text) -> bool {
    supported matches Some(t) && exists|i: int|
        0 <= i < text::text_lines(t).len() && names_locale(#[trigger] text::text_lines(t)[i], name)
}

/// Whether a line of glibc's list names a UTF-8 locale.
pub open spec fn names_locale(line: Text, name: Text) -> bool {
    text::words(line).len() > 0 && text::words(line)[0] == name && text::ends(name, ".UTF-8"@)
}

proof fn lemma_utf8_names(lines: Seq<Text>, name: Text)
    ensures
        utf8_names(lines).contains(name) <==> exists|i: int|
            0 <= i < lines.len() && names_locale(#[trigger] lines[i], name),
    decreases lines.len(),
{
    if lines.len() > 0 {
        let rest = lines.drop_last();
        assert(forall|i: int| 0 <= i < rest.len() ==> #[trigger] rest[i] == lines[i]);
        lemma_utf8_names(rest, name);
        let all = utf8_names(lines);
        let front = utf8_names(rest);
        let last = lines[lines.len() - 1];
        if front.contains(name) {
            let k = choose|k: int| 0 <= k < front.len() && front[k] == name;
            assert(all[k] == name);
            let i = choose|i: int| 0 <= i < rest.len() && names_locale(#[trigger] rest[i], name);
            assert(lines[i] == rest[i]);
        }
        if all.contains(name) {
            let k = choose|k: int| 0 <= k < all.len() && all[k] == name;
            if k < front.len() {
                assert(front[k] == name);
            } else {
                assert(names_locale(last, name));
            }
        }
        if exists|i: int| 0 <= i < lines.len() && names_locale(#[trigger] lines[i], name) {
            let i = choose|i: int| 0 <= i < lines.len() && names_locale(#[trigger] lines[i], name);
            if i < rest.len() {
                assert(names_locale(rest[i], name));
            } else {
                assert(all[front.len() as int] == name);
            }
        }
    }
}

/// A keymap is offered exactly when it is a line of systemd's list, without the
/// white space around it; where there is no such list, the usual ones are.
pub proof fn lemma_keymaps_exactly(listed: Result<Text, run::FailedView>, name: Text)
    requires
        name.len() > 0,
    ensures
        ({
            &&& some_line_is(listed, name) ==> keymap_list(listed).contains(name)
            &&& keymap_list(listed).contains(name) ==> some_line_is(listed, name) || seq![
                "us"@,
                "uk"@,
                "de"@,
                "fr"@,
                "es"@,
                "it"@,
                "dvorak"@,
                "colemak"@,
            ].contains(name)
        }),
{
    let lines = match listed {
        Ok(t) => text::text_lines(t),
        Err(_) => Seq::<Text>::empty(),
    };
    let found = match listed {
        Ok(t) => filled_lines(text::text_lines(t)),
        Err(_) => Seq::<Text>::empty(),
    };
    assert(texts(COMMON_KEYMAPS@) =~= seq![
        "us"@,
        "uk"@,
        "de"@,
        "fr"@,
        "es"@,
        "it"@,
        "dvorak"@,
        "colemak"@,
    ]);
    lemma_filled_lines(lines, name);
    assert(found =~= filled_lines(lines));
    lemma_question_list_exactly(found, texts(COMMON_KEYMAPS@), "us"@, name);
}

/// Whether some line of systemd's list is this, without the white space around
/// it.
pub open spec fn some_line_is(listed: Result<Text, run::FailedView>, name: Text) -> bool {
    listed matches Ok(t) && exists|i: int|
        0 <= i < text::text_lines(t).len() && text::trim(#[trigger] text::text_lines(t)[i]) == name
}

proof fn lemma_filled_lines(lines: Seq<Text>, name: Text)
    requires
        name.len() > 0,
    ensures
        filled_lines(lines).contains(name) <==> exists|i: int|
            0 <= i < lines.len() && text::trim(#[trigger] lines[i]) == name,
    decreases lines.len(),
{
    if lines.len() > 0 {
        let rest = lines.drop_last();
        assert(forall|i: int| 0 <= i < rest.len() ==> #[trigger] rest[i] == lines[i]);
        lemma_filled_lines(rest, name);
        let all = filled_lines(lines);
        let front = filled_lines(rest);
        let last = lines[lines.len() - 1];
        if front.contains(name) {
            let k = choose|k: int| 0 <= k < front.len() && front[k] == name;
            assert(all[k] == name);
            let i = choose|i: int| 0 <= i < rest.len() && text::trim(#[trigger] rest[i]) == name;
            assert(lines[i] == rest[i]);
        }
        if all.contains(name) {
            let k = choose|k: int| 0 <= k < all.len() && all[k] == name;
            if k < front.len() {
                assert(front[k] == name);
            } else {
                assert(text::trim(last) == name);
            }
        }
        if exists|i: int| 0 <= i < lines.len() && text::trim(#[trigger] lines[i]) == name {
            let i = choose|i: int| 0 <= i < lines.len() && text::trim(#[trigger] lines[i]) == name;
            if i < rest.len() {
                assert(text::trim(rest[i]) == name);
            } else {
                assert(all[front.len() as int] == name);
            }
        }
    }
}

/// Whether a name is a zone of an area: of one of its cities, or of a directory
/// below it.
pub open spec fn zone_in(area: AreaView, zone: Text) -> bool {
    &&& area.cities is Some
    &&& capital(area.name)
    &&& area.name != "posix"@ && area.name != "right"@ && area.name != "SystemV"@
    &&& exists|c: int|
        0 <= c < area.cities->Some_0.len() && zone_of_city(
            area.name,
            #[trigger] area.cities->Some_0[c],
            zone,
        )
}

/// Whether a name is a zone of a city: the city itself, or one in its directory.
pub open spec fn zone_of_city(area: Text, city: CityView, zone: Text) -> bool {
    match city.zones {
        None => zone == area + "/"@ + city.name,
        Some(names) => exists|k: int|
            0 <= k < names.len() && zone == area + "/"@ + city.name + "/"@ + #[trigger] names[k],
    }
}

/// A timezone is offered exactly when it is `UTC` or a zone of an area of the
/// tree.
pub proof fn lemma_timezones_exactly(areas: Seq<AreaView>, zone: Text)
    ensures
        timezone_list(Some(areas)).contains(zone) <==> zone == "UTC"@ || exists|i: int|
            0 <= i < areas.len() && zone_in(#[trigger] areas[i], zone),
        timezone_list(None) == seq!["UTC"@],
{
    broadcast use vstd::seq_lib::group_to_multiset_ensures;

    let zones = all_zones(areas);
    let all = zones.push("UTC"@);
    let sorted = text::sorted_set(all);
    text::lemma_sorted_set(all);
    lemma_preferring_moves(sorted, "UTC"@);
    let out = preferred(sorted, "UTC"@);
    assert(out.contains(zone) <==> out.to_multiset().count(zone) > 0);
    assert(sorted.contains(zone) <==> sorted.to_multiset().count(zone) > 0);
    lemma_all_zones(areas, zone);
    if all.contains(zone) {
        let k = choose|k: int| 0 <= k < all.len() && all[k] == zone;
        if k < zones.len() {
            assert(zones[k] == zone);
        }
    }
    if zones.contains(zone) {
        let k = choose|k: int| 0 <= k < zones.len() && zones[k] == zone;
        assert(all[k] == zone);
    }
    assert(all[zones.len() as int] == "UTC"@);
}

proof fn lemma_either_contains(a: Seq<Text>, b: Seq<Text>, t: Text)
    ensures
        (a + b).contains(t) <==> a.contains(t) || b.contains(t),
{
    if a.contains(t) {
        let k = choose|k: int| 0 <= k < a.len() && a[k] == t;
        assert((a + b)[k] == t);
    }
    if b.contains(t) {
        let k = choose|k: int| 0 <= k < b.len() && b[k] == t;
        assert((a + b)[a.len() + k] == t);
    }
    if (a + b).contains(t) {
        let k = choose|k: int| 0 <= k < (a + b).len() && (a + b)[k] == t;
        if k < a.len() {
            assert(a[k] == t);
        } else {
            assert(b[k - a.len()] == t);
        }
    }
}

proof fn lemma_all_zones(areas: Seq<AreaView>, zone: Text)
    ensures
        all_zones(areas).contains(zone) <==> exists|i: int|
            0 <= i < areas.len() && zone_in(#[trigger] areas[i], zone),
    decreases areas.len(),
{
    if areas.len() > 0 {
        let rest = areas.drop_last();
        let last = areas[areas.len() - 1];
        assert(forall|i: int| 0 <= i < rest.len() ==> #[trigger] rest[i] == areas[i]);
        lemma_all_zones(rest, zone);
        lemma_either_contains(all_zones(rest), area_zones(last, capital(last.name)), zone);
        if let Some(cities) = last.cities {
            lemma_cities_zones(last.name, cities, zone);
        }
        if exists|i: int| 0 <= i < rest.len() && zone_in(#[trigger] rest[i], zone) {
            let i = choose|i: int| 0 <= i < rest.len() && zone_in(#[trigger] rest[i], zone);
            assert(zone_in(areas[i], zone));
        }
        if exists|i: int| 0 <= i < areas.len() && zone_in(#[trigger] areas[i], zone) {
            let i = choose|i: int| 0 <= i < areas.len() && zone_in(#[trigger] areas[i], zone);
            if i < rest.len() {
                assert(zone_in(rest[i], zone));
            }
        }
        assert(area_zones(last, capital(last.name)).contains(zone) <==> zone_in(last, zone));
    }
}

proof fn lemma_cities_zones(area: Text, cities: Seq<CityView>, zone: Text)
    ensures
        cities_zones(area, cities).contains(zone) <==> exists|c: int|
            0 <= c < cities.len() && zone_of_city(area, #[trigger] cities[c], zone),
    decreases cities.len(),
{
    if cities.len() > 0 {
        let rest = cities.drop_last();
        let last = cities[cities.len() - 1];
        assert(forall|i: int| 0 <= i < rest.len() ==> #[trigger] rest[i] == cities[i]);
        lemma_cities_zones(area, rest, zone);
        lemma_either_contains(cities_zones(area, rest), city_zones(area, last), zone);
        lemma_city_zones(area, last, zone);
        if exists|c: int| 0 <= c < rest.len() && zone_of_city(area, #[trigger] rest[c], zone) {
            let c = choose|c: int| 0 <= c < rest.len() && zone_of_city(area, #[trigger] rest[c], zone);
            assert(zone_of_city(area, cities[c], zone));
        }
        if exists|c: int| 0 <= c < cities.len() && zone_of_city(area, #[trigger] cities[c], zone) {
            let c = choose|c: int|
                0 <= c < cities.len() && zone_of_city(area, #[trigger] cities[c], zone);
            if c < rest.len() {
                assert(zone_of_city(area, rest[c], zone));
            }
        }
    }
}

proof fn lemma_city_zones(area: Text, city: CityView, zone: Text)
    ensures
        city_zones(area, city).contains(zone) <==> zone_of_city(area, city, zone),
{
    let all = city_zones(area, city);
    match city.zones {
        None => {
            assert(all[0] == area + "/"@ + city.name);
        },
        Some(names) => {
            if all.contains(zone) {
                let k = choose|k: int| 0 <= k < all.len() && all[k] == zone;
                assert(zone == area + "/"@ + city.name + "/"@ + names[k]);
            }
            if zone_of_city(area, city, zone) {
                let k = choose|k: int|
                    0 <= k < names.len() && zone == area + "/"@ + city.name + "/"@
                        + #[trigger] names[k];
                assert(all[k] == zone);
            }
        },
    }
}

/// Whether a list holds some of another, in the same order, at the given
/// places.
pub open spec fn at_places<T>(part: Seq<T>, whole: Seq<T>, places: Seq<int>) -> bool {
    &&& places.len() == part.len()
    &&& forall|i: int|
        0 <= i < part.len() ==> 0 <= #[trigger] places[i] < whole.len() && whole[places[i]]
            == part[i]
    &&& forall|i: int, j: int| 0 <= i < j < part.len() ==> #[trigger] places[i] < #[trigger] places[j]
}

/// Profiles are offered in the catalog's order.
pub proof fn lemma_profiles_in_order(list: Seq<ProfileView>, library: LibraryView) -> (places: Seq<
    int,
>)
    ensures
        at_places(offered(list, library), list, places),
    decreases list.len(),
{
    if list.len() == 0 {
        Seq::empty()
    } else {
        let rest = list.drop_last();
        let front = lemma_profiles_in_order(rest, library);
        let all = if library.has(list.last().module) {
            front.push(list.len() - 1)
        } else {
            front
        };
        assert forall|i: int| 0 <= i < all.len() implies 0 <= #[trigger] all[i] < list.len()
            && list[all[i]] == offered(list, library)[i] by {
            if i < front.len() {
                assert(all[i] == front[i]);
                assert(rest[front[i]] == offered(rest, library)[i]);
            }
        }
        assert forall|i: int, j: int| 0 <= i < j < all.len() implies #[trigger] all[i]
            < #[trigger] all[j] by {
            assert(front[i] < rest.len());
            assert(all[i] == front[i]);
            if j < front.len() {
                assert(all[j] == front[j]);
            }
        }
        all
    }
}

/// Modules and headings are offered in the catalog's order.
pub proof fn lemma_extras_in_order(list: Seq<EntryView>, library: LibraryView) -> (places: Seq<int>)
    ensures
        at_places(headed(present(list, library)), list, places),
{
    let kept = present(list, library);
    let a = lemma_present_in_order(list, library);
    let b = lemma_headed_in_order(kept);
    let h = headed(kept);
    let places = Seq::new(h.len(), |i: int| a[b[i]]);
    assert forall|i: int| 0 <= i < h.len() implies 0 <= #[trigger] places[i] < list.len()
        && list[places[i]] == h[i] by {
        assert(kept[b[i]] == h[i]);
        assert(0 <= a[b[i]] < list.len());
    }
    assert forall|i: int, j: int| 0 <= i < j < h.len() implies #[trigger] places[i]
        < #[trigger] places[j] by {
        assert(b[i] < b[j]);
        assert(0 <= b[i] && b[j] < kept.len());
        assert(a[b[i]] < a[b[j]]);
    }
    places
}

proof fn lemma_present_in_order(list: Seq<EntryView>, library: LibraryView) -> (places: Seq<int>)
    ensures
        at_places(present(list, library), list, places),
    decreases list.len(),
{
    if list.len() == 0 {
        Seq::empty()
    } else {
        let rest = list.drop_last();
        let front = lemma_present_in_order(rest, library);
        let whole = present(list, library);
        let some = present(rest, library);
        let all = if whole.len() > some.len() {
            front.push(list.len() - 1)
        } else {
            front
        };
        assert forall|i: int| 0 <= i < all.len() implies 0 <= #[trigger] all[i] < list.len()
            && list[all[i]] == whole[i] by {
            if i < front.len() {
                assert(all[i] == front[i]);
                assert(rest[front[i]] == some[i]);
            }
        }
        assert forall|i: int, j: int| 0 <= i < j < all.len() implies #[trigger] all[i]
            < #[trigger] all[j] by {
            assert(front[i] < rest.len());
            assert(all[i] == front[i]);
            if j < front.len() {
                assert(all[j] == front[j]);
            }
        }
        all
    }
}

proof fn lemma_headed_in_order(list: Seq<EntryView>) -> (places: Seq<int>)
    ensures
        at_places(headed(list), list, places),
    decreases list.len(),
{
    if list.len() == 0 {
        Seq::empty()
    } else {
        let rest = list.drop_first();
        let later = lemma_headed_in_order(rest);
        let h = headed(list);
        let hr = headed(rest);
        let moved = Seq::new(later.len(), |i: int| later[i] + 1);
        let all = if h.len() > hr.len() {
            seq![0int] + moved
        } else {
            moved
        };
        let shift = h.len() - hr.len();
        assert forall|i: int| 0 <= i < all.len() implies 0 <= #[trigger] all[i] < list.len()
            && list[all[i]] == h[i] by {
            if i >= shift {
                assert(all[i] == later[i - shift] + 1);
                assert(rest[later[i - shift]] == hr[i - shift]);
                assert(h[i] == hr[i - shift]);
            }
        }
        assert forall|i: int, j: int| 0 <= i < j < all.len() implies #[trigger] all[i]
            < #[trigger] all[j] by {
            assert(0 <= later[j - shift]);
            if i >= shift {
                assert(later[i - shift] < later[j - shift]);
            }
        }
        all
    }
}

/// Moving an entry to the front leaves all others in their order.
pub proof fn lemma_preferring_keeps_the_order(list: Seq<Text>, x: Text) -> (i: int)
    requires
        list.contains(x),
    ensures
        0 <= i < list.len() && list[i] == x,
        preferred(list, x) == seq![x] + list.take(i) + list.skip(i + 1),
{
    let i = lemma_earliest(list, x);
    lemma_without_first(list, x, i);
    assert(seq![x] + list.remove(i) =~= seq![x] + list.take(i) + list.skip(i + 1));
    i
}

/// Locales, keymaps and timezones are in order, but for the one that leads.
pub proof fn lemma_lists_are_in_order(
    supported: Option<Text>,
    listed: Result<Text, run::FailedView>,
    tree: Seq<AreaView>,
)
    ensures
        in_order_but_for(locale_list(supported), "en_US.UTF-8"@),
        in_order_but_for(keymap_list(listed), "us"@),
        in_order_but_for(timezone_list(Some(tree)), "UTC"@),
{
    let locales = match supported {
        Some(t) => utf8_names(text::text_lines(t)),
        None => Seq::empty(),
    };
    let locales = if locales.len() == 0 {
        texts(COMMON_LOCALES@)
    } else {
        locales
    };
    let maps = match listed {
        Ok(t) => filled_lines(text::text_lines(t)),
        Err(_) => Seq::empty(),
    };
    let maps = if maps.len() == 0 {
        texts(COMMON_KEYMAPS@)
    } else {
        maps
    };
    lemma_preferred_in_order(locales, "en_US.UTF-8"@);
    lemma_preferred_in_order(maps, "us"@);
    lemma_preferred_in_order(all_zones(tree).push("UTC"@), "UTC"@);
}

/// Whether a list is in order, with one entry in front of all others if it is
/// there.
pub open spec fn in_order_but_for(list: Seq<Text>, x: Text) -> bool {
    if list.contains(x) {
        list[0] == x && text::ascending(list.skip(1))
    } else {
        text::ascending(list)
    }
}

proof fn lemma_preferred_in_order(all: Seq<Text>, x: Text)
    ensures
        in_order_but_for(preferred(text::sorted_set(all), x), x),
{
    text::lemma_sorted_set(all);
    let sorted = text::sorted_set(all);
    let out = preferred(sorted, x);
    if sorted.contains(x) {
        let i = lemma_preferring_keeps_the_order(sorted, x);
        let rest = out.skip(1);
        assert(out[0] == x);
        assert(rest =~= sorted.take(i) + sorted.skip(i + 1));
        assert forall|j: int, k: int| 0 <= j < k < rest.len() implies text::precedes(
            #[trigger] rest[j],
            #[trigger] rest[k],
        ) by {
            let a = if j < i {
                j
            } else {
                j + 1
            };
            let b = if k < i {
                k
            } else {
                k + 1
            };
            assert(rest[j] == sorted[a] && rest[k] == sorted[b]);
        }
    }
}

/// Every profile but the smallest has `wheel-sudo`, and nothing else is taken to
/// be covered.
pub proof fn lemma_what_profiles_cover(profile: Text, module: Text)
    ensures
        covers(profile, module) <==> profile != "@kiln/profiles/minimal"@ && module
            == "@kiln/security/wheel-sudo"@,
{
}

} // verus!
