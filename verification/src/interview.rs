//! The questions, and the order they are asked in.
//!
//! This is a state machine rather than a straight run of prompts, for one
//! reason: Esc goes back. Somebody who mistypes a hostname on screen three and
//! notices on screen eleven should not have to restart an installer, and an
//! installer that cannot be corrected is one people restart by rebooting.
//!
//! Nothing here touches the disk. The interview produces `Answers`; the
//! `steps` module is the only one that has anything written, and it does not
//! start until the review screen has been accepted.

use vstd::prelude::*;

use crate::block;
use crate::block::{Disk, DiskView};
use crate::catalog;
use crate::catalog::{defaults, extras_beyond, profiles, Entry, EntryView, Library, Profile, ProfileView};
use crate::keys::{Answer, Key, Nav};
use crate::rules;
use crate::rules::{Check, CheckView};
use crate::screens;
use crate::screens::{
    ask_confirm, ask_disk, ask_encrypt, ask_hostname, ask_modules, ask_packages, ask_password,
    ask_pick, ask_profile, ask_review, ask_root_password, ask_username, disk_rows, encrypt_rows,
    module_rows, pick_rows, profile_rows, review_rows, tell_missing, SCREENS,
};
use crate::text;
use crate::text::{among, emit, join, same, sort_unique, words_of, Text};
use crate::tui::{OptView, PageView, Ui, BOLD, RESET};
use crate::widgets;
use crate::widgets::{
    FieldView, MultiselectView, Reply, ReplyView, Screen, ScreenView, SecretView, SelectView,
    WidgetView, PAUSE_HELP,
};

verus! {

/// Everything the install needs to know.
pub struct Answers {
    pub disk: Disk,
    pub hostname: String,
    pub timezone: String,
    pub locale: String,
    pub keymap: String,
    pub profile: String,
    pub modules: Vec<String>,
    pub packages: Vec<String>,
    pub username: String,
    pub user_password: String,
    /// Empty means the root account is left locked, which is only offered when
    /// something in the configuration grants `wheel` sudo.
    pub root_password: String,
    /// Whether the root partition is LUKS2. `/boot` and the ESP are always
    /// written in the clear.
    pub encrypt: bool,
    /// Piped to `cryptsetup` over stdin and never written anywhere: not the
    /// log, not the configuration. Empty when `encrypt` is false.
    pub passphrase: String,
    /// Not asked: filled in once the root filesystem has been made.
    pub root_uuid: String,
    /// The LUKS container's own UUID, not the filesystem's. Filled in once the
    /// container has been made; `None` when `encrypt` is false.
    pub luks_uuid: Option<String>,
}

/// What `Answers` hold, as contracts see it.
#[verifier::ext_equal]
pub struct AnswersView {
    pub disk: DiskView,
    pub hostname: Text,
    pub timezone: Text,
    pub locale: Text,
    pub keymap: Text,
    pub profile: Text,
    pub modules: Seq<Text>,
    pub packages: Seq<Text>,
    pub username: Text,
    pub user_password: Text,
    pub root_password: Text,
    pub encrypt: bool,
    pub passphrase: Text,
    pub root_uuid: Text,
    pub luks_uuid: Option<Text>,
}

impl View for Answers {
    type V = AnswersView;

    open spec fn view(&self) -> AnswersView {
        AnswersView {
            disk: self.disk@,
            hostname: self.hostname@,
            timezone: self.timezone@,
            locale: self.locale@,
            keymap: self.keymap@,
            profile: self.profile@,
            modules: self.modules.deep_view(),
            packages: self.packages.deep_view(),
            username: self.username@,
            user_password: self.user_password@,
            root_password: self.root_password@,
            encrypt: self.encrypt,
            passphrase: self.passphrase@,
            root_uuid: self.root_uuid@,
            luks_uuid: self.luks_uuid.deep_view(),
        }
    }
}

/// The module every profile but `minimal` already has, and the one a `minimal`
/// install has to be told to add.
pub const WHEEL_SUDO: &'static str = "@kiln/security/wheel-sudo";

/// The one profile that does not let `wheel` sudo by itself.
pub const MINIMAL: &'static str = "@kiln/profiles/minimal";

/// Whether a configuration lets `wheel` sudo.
pub open spec fn sudo_granted(profile: Text, modules: Seq<Text>) -> bool {
    profile != MINIMAL@ || modules.contains(WHEEL_SUDO@)
}

/// Whether the configuration about to be written lets `wheel` sudo, and so
/// whether root may be left locked.
///
/// Kiln does not manage accounts, so this is the installer reasoning about the
/// configuration it is about to write rather than Kiln reasoning about users.
pub fn grants_sudo(profile: &str, modules: &[String]) -> (r: bool)
    ensures
        r == sudo_granted(profile@, modules.deep_view()),
{
    !same(profile, MINIMAL) || among(modules, WHEEL_SUDO)
}

impl AnswersView {
    /// Whether an unlocked root account is optional.
    pub open spec fn sudo(self) -> bool {
        sudo_granted(self.profile, self.modules)
    }
}

impl Answers {
    /// Whether an unlocked root account is optional.
    pub fn sudo(&self) -> (r: bool)
        ensures
            r == self@.sudo(),
    {
        grants_sudo(self.profile.as_str(), self.modules.as_slice())
    }
}

// ---------------------------------------------------------------------------
// What there is to choose from
// ---------------------------------------------------------------------------

/// What there is to choose from.
pub struct Offer {
    pub disks: Vec<Disk>,
    pub profiles: Vec<Profile>,
    pub extras: Vec<Entry>,
    pub zones: Vec<String>,
    pub locales: Vec<String>,
    pub maps: Vec<String>,
}

/// What an `Offer` holds, as contracts see it.
#[verifier::ext_equal]
pub struct OfferView {
    pub disks: Seq<DiskView>,
    pub profiles: Seq<ProfileView>,
    pub extras: Seq<EntryView>,
    pub zones: Seq<Text>,
    pub locales: Seq<Text>,
    pub maps: Seq<Text>,
}

impl View for Offer {
    type V = OfferView;

    open spec fn view(&self) -> OfferView {
        OfferView {
            disks: self.disks.deep_view(),
            profiles: self.profiles.deep_view(),
            extras: self.extras.deep_view(),
            zones: self.zones.deep_view(),
            locales: self.locales.deep_view(),
            maps: self.maps.deep_view(),
        }
    }
}

/// Whether none of some disks may be erased.
pub open spec fn all_busy(disks: Seq<DiskView>) -> bool {
    forall|i: int| 0 <= i < disks.len() ==> (#[trigger] disks[i]).busy is Some
}

/// Why the interview cannot begin, if it cannot.
pub open spec fn obstacle(
    disks: Result<Seq<DiskView>, Text>,
    root: Text,
    profiles: Seq<ProfileView>,
) -> Option<Text> {
    match disks {
        Err(e) => Some(e),
        Ok(list) => if list.len() == 0 {
            Some("no disks found"@)
        } else if all_busy(list) {
            Some(
                "every disk on this machine is in use or too small; terracotta-installer has nothing it may erase"@,
            )
        } else if profiles.len() == 0 {
            Some(
                "no profiles in the module library at "@ + root
                    + " — the `kiln` package ships them at /usr/share/kiln/modules"@,
            )
        } else {
            None
        },
    }
}

/// Disks as contracts see them.
pub open spec fn disks_view(disks: Result<Vec<Disk>, String>) -> Result<Seq<DiskView>, Text> {
    match disks {
        Ok(list) => Ok(list.deep_view()),
        Err(e) => Err(e@),
    }
}

/// Whether none of some disks may be erased.
fn none_free(disks: &[Disk]) -> (r: bool)
    ensures
        r == all_busy(disks.deep_view()),
{
    let mut i: usize = 0;
    while i < disks.len()
        invariant
            i <= disks.len(),
            forall|j: int| 0 <= j < i ==> (#[trigger] disks.deep_view()[j]).busy is Some,
        decreases disks.len() - i,
    {
        assert(disks.deep_view()[i as int] == disks@[i as int]@);
        if disks[i].busy.is_none() {
            return false;
        }
        i += 1;
    }
    true
}

/// Whether the interview can begin: there is a disk that may be erased, and the
/// machine's library has a profile. `None` is yes, `Some` says why not.
pub fn why_not(disks: &Result<Vec<Disk>, String>, library: &Library) -> (out: Option<String>)
    ensures
        out.deep_view() == obstacle(
            disks_view(*disks),
            library@.root,
            catalog::offered(catalog::all_profiles(), library@),
        ),
{
    match disks {
        Err(e) => Some(e.clone()),
        Ok(list) => {
            assert(list.deep_view().len() == list@.len());
            if list.len() == 0 {
                return Some("no disks found".to_owned());
            }
            if none_free(list.as_slice()) {
                return Some(
                    "every disk on this machine is in use or too small; terracotta-installer has nothing it may erase".to_owned(),
                );
            }
            let found = profiles(library);
            assert(found.deep_view().len() == found@.len());
            if found.len() == 0 {
                Some(
                    "no profiles in the module library at ".to_owned().concat(
                        library.root.as_str(),
                    ).concat(" — the `kiln` package ships them at /usr/share/kiln/modules"),
                )
            } else {
                None
            }
        },
    }
}

// ---------------------------------------------------------------------------
// The questions in their order
// ---------------------------------------------------------------------------

/// What is on the screen of a question. Only the one about encryption has more
/// than one part.
#[derive(Clone, Copy, PartialEq, Eq, Structural)]
pub enum Part {
    /// The question itself.
    Question,
    /// The passphrase that goes with a yes.
    Passphrase,
    /// The message that nothing here can encrypt a disk.
    Missing,
}

/// The screen of a question as it opens, with the answers so far in it.
pub open spec fn question(offer: OfferView, a: AnswersView, at: int, part: Part) -> ScreenView {
    if at == 0 {
        ScreenView {
            page: screens::disk_page(at),
            widget: WidgetView::Select(
                SelectView::opened(screens::disk_options(offer.disks, a.disk.path)),
            ),
        }
    } else if at == 1 {
        match part {
            Part::Question => ScreenView {
                page: screens::encrypt_page(at),
                widget: WidgetView::Select(SelectView::opened(screens::encrypt_options(a.encrypt))),
            },
            Part::Passphrase => ScreenView {
                page: screens::encrypt_page(at),
                widget: WidgetView::Secret(SecretView::opened("passphrase"@, false)),
            },
            Part::Missing => ScreenView {
                page: screens::missing_page(at),
                widget: WidgetView::Pause { help: PAUSE_HELP@ },
            },
        }
    } else if at == 2 {
        ScreenView {
            page: screens::confirm_page(at, a),
            widget: WidgetView::Field(
                FieldView::fresh(
                    "type "@ + BOLD@ + a.disk.word() + RESET@ + " to confirm"@,
                    Seq::empty(),
                    false,
                    CheckView::Word { word: a.disk.word() },
                ),
            ),
        }
    } else if at == 3 {
        ScreenView {
            page: screens::hostname_page(at),
            widget: WidgetView::Field(
                FieldView::fresh("hostname"@, a.hostname, false, CheckView::Hostname),
            ),
        }
    } else if at == 4 {
        ScreenView {
            page: screens::pick_page(
                at,
                "Timezone"@,
                "Used for the clock, not for the image."@,
            ),
            widget: WidgetView::Select(
                SelectView::opened(screens::pick_options(offer.zones, a.timezone)),
            ),
        }
    } else if at == 5 {
        ScreenView {
            page: screens::pick_page(
                at,
                "Locale"@,
                "Compiled into the image by a build script."@,
            ),
            widget: WidgetView::Select(
                SelectView::opened(screens::pick_options(offer.locales, a.locale)),
            ),
        }
    } else if at == 6 {
        ScreenView {
            page: screens::pick_page(
                at,
                "Console keymap"@,
                "The virtual console; a desktop sets its own."@,
            ),
            widget: WidgetView::Select(
                SelectView::opened(screens::pick_options(offer.maps, a.keymap)),
            ),
        }
    } else if at == 7 {
        ScreenView {
            page: screens::profile_page(at),
            widget: WidgetView::Select(
                SelectView::opened(screens::profile_options(offer.profiles, a.profile)),
            ),
        }
    } else if at == 8 {
        ScreenView {
            page: screens::modules_page(at),
            widget: WidgetView::Multiselect(
                MultiselectView::opened(
                    screens::module_options(
                        catalog::beyond(offer.extras, a.profile),
                        a.modules,
                    ),
                ),
            ),
        }
    } else if at == 9 {
        ScreenView {
            page: screens::packages_page(at),
            widget: WidgetView::Field(
                FieldView::fresh(
                    "packages"@,
                    text::joined(a.packages, " "@),
                    false,
                    CheckView::Packages,
                ),
            ),
        }
    } else if at == 10 {
        ScreenView {
            page: screens::username_page(at),
            widget: WidgetView::Field(
                FieldView::fresh("username"@, a.username, false, CheckView::Username),
            ),
        }
    } else if at == 11 {
        ScreenView {
            page: screens::password_page(at, a.username),
            widget: WidgetView::Secret(SecretView::opened("password"@, false)),
        }
    } else if at == 12 {
        ScreenView {
            page: screens::root_password_page(at, a.sudo()),
            widget: WidgetView::Secret(SecretView::opened("root password"@, a.sudo())),
        }
    } else {
        ScreenView {
            page: screens::review_page(at),
            widget: WidgetView::Review { rows: screens::review_of(a) },
        }
    }
}

/// The screen of a question as it opens.
fn open_question(offer: &Offer, a: &Answers, at: usize, part: Part) -> (out: Screen)
    requires
        at < SCREENS,
    ensures
        out@ == question(offer@, a@, at as int, part),
{
    if at == 0 {
        Ui::select(ask_disk(at), disk_rows(offer.disks.as_slice(), a.disk.path.as_str()))
    } else if at == 1 {
        match part {
            Part::Question => Ui::select(ask_encrypt(at), encrypt_rows(a.encrypt)),
            Part::Passphrase => Ui::secret(ask_encrypt(at), "passphrase", false),
            Part::Missing => Ui::pause(tell_missing(at)),
        }
    } else if at == 2 {
        Ui::typed_confirm(ask_confirm(at, a), a.disk.word().as_str())
    } else if at == 3 {
        Ui::text(ask_hostname(at), "hostname", a.hostname.as_str(), Check::Hostname)
    } else if at == 4 {
        Ui::select(
            ask_pick(at, "Timezone", "Used for the clock, not for the image."),
            pick_rows(offer.zones.as_slice(), a.timezone.as_str()),
        )
    } else if at == 5 {
        Ui::select(
            ask_pick(at, "Locale", "Compiled into the image by a build script."),
            pick_rows(offer.locales.as_slice(), a.locale.as_str()),
        )
    } else if at == 6 {
        Ui::select(
            ask_pick(at, "Console keymap", "The virtual console; a desktop sets its own."),
            pick_rows(offer.maps.as_slice(), a.keymap.as_str()),
        )
    } else if at == 7 {
        Ui::select(
            ask_profile(at),
            profile_rows(offer.profiles.as_slice(), a.profile.as_str()),
        )
    } else if at == 8 {
        Ui::multiselect(
            ask_modules(at),
            module_rows(
                extras_beyond(offer.extras.as_slice(), a.profile.as_str()).as_slice(),
                a.modules.as_slice(),
            ),
        )
    } else if at == 9 {
        Ui::text(
            ask_packages(at),
            "packages",
            join(a.packages.as_slice(), " ").as_str(),
            Check::Packages,
        )
    } else if at == 10 {
        Ui::text(ask_username(at), "username", a.username.as_str(), Check::Username)
    } else if at == 11 {
        Ui::secret(ask_password(at, a.username.as_str()), "password", false)
    } else if at == 12 {
        Ui::secret(ask_root_password(at, a.sudo()), "root password", a.sudo())
    } else {
        Ui::review(ask_review(at), review_rows(a))
    }
}

/// Whether a screen is one that opened as `fresh` and has been used since: what
/// it asks is the same, and only what was typed, marked or moved differs.
pub open spec fn same_question(s: ScreenView, fresh: ScreenView) -> bool {
    &&& s.page == fresh.page
    &&& match (s.widget, fresh.widget) {
        (WidgetView::Select(w), WidgetView::Select(f)) => w.options == f.options && 0 <= w.cursor
            && 0 <= w.top,
        (WidgetView::Multiselect(w), WidgetView::Multiselect(f)) => w.options == f.options
            && w.well_formed() && 0 <= w.cursor && 0 <= w.top,
        (WidgetView::Field(w), WidgetView::Field(f)) => w.label == f.label && w.mask == f.mask
            && w.check == f.check,
        (WidgetView::Secret(w), WidgetView::Secret(f)) => w.label == f.label && w.allow_empty
            == f.allow_empty && w.well_formed(),
        (WidgetView::Review { rows }, WidgetView::Review { rows: r }) => rows == r,
        (WidgetView::Pause { help }, WidgetView::Pause { help: h }) => help == h,
        _ => false,
    }
}

proof fn lemma_still_the_same_question(s: ScreenView, fresh: ScreenView, key: Key, ui: Ui)
    requires
        same_question(s, fresh),
    ensures
        same_question(s.pressed(key).0, fresh),
        same_question(s.settled(ui), fresh),
        s.well_formed(),
{
    match s.widget {
        WidgetView::Select(w) => {
            lemma_rows_in_place(w, ui, s.page);
        },
        WidgetView::Multiselect(w) => {
            let p = |i: int| w.options[i].selectable();
            widgets::lemma_picked(w.options.len() as int, p);
            assert(0 <= w.here() && (w.here() < w.options.len() || w.here() == 0));
            widgets::lemma_space_toggles(w);
        },
        WidgetView::Secret(w) => {
            widgets::lemma_secrets_are_entered_twice(w, key);
        },
        _ => {},
    }
}

proof fn lemma_rows_in_place(w: SelectView, ui: Ui, page: PageView)
    requires
        0 <= w.cursor,
        0 <= w.top,
    ensures
        w.at(w.rows()) >= 0,
        w.settled(ui, page, w.rows()).top >= 0,
{
    lemma_place_of(w.rows().shown, w.rows().choices[w.at(w.rows())], 0);
}

proof fn lemma_place_of(rows: Seq<int>, x: int, k: int)
    requires
        0 <= k,
    ensures
        widgets::place_of(rows, x, k) >= 0,
    decreases rows.len() - k,
{
    if k < rows.len() {
        lemma_place_of(rows, x, k + 1);
    }
}

proof fn lemma_opens_as_itself(offer: OfferView, a: AnswersView, at: int, part: Part)
    requires
        0 <= at < SCREENS,
    ensures
        same_question(question(offer, a, at, part), question(offer, a, at, part)),
{
    let q = question(offer, a, at, part);
    if let WidgetView::Select(w) = q.widget {
        lemma_first_checked_in_place(w.options, w.rows().choices, 0);
        lemma_first_checked_in_place(
            w.options,
            (SelectView { cursor: 0, ..w }).rows().choices,
            0,
        );
        assert((SelectView { cursor: 0, ..w }).rows() == w.rows());
    }
}

proof fn lemma_first_checked_in_place(options: Seq<OptView>, rows: Seq<int>, k: int)
    requires
        0 <= k,
    ensures
        widgets::first_checked(options, rows, k) >= 0,
    decreases rows.len() - k,
{
    if k < rows.len() {
        lemma_first_checked_in_place(options, rows, k + 1);
    }
}

// ---------------------------------------------------------------------------
// The interview
// ---------------------------------------------------------------------------

/// What became of the interview.
#[derive(Debug, Clone, Copy, PartialEq, Eq, Structural)]
pub enum Turn {
    /// A question is open.
    Asking,
    /// Everything was answered, and the review accepted.
    Finished,
    /// The user quit. Nothing has been written, so quitting is always free.
    Left,
}

/// The interview: what there is to choose from, the answers so far, and the
/// question that is open.
pub struct Interview {
    pub offer: Offer,
    pub answers: Answers,
    /// The number of the open question, counted from zero; `SCREENS` once all
    /// are answered.
    pub at: usize,
    pub part: Part,
    pub screen: Screen,
}

/// What an `Interview` holds, as contracts see it.
#[verifier::ext_equal]
pub struct InterviewView {
    pub offer: OfferView,
    pub answers: AnswersView,
    pub at: int,
    pub part: Part,
    pub screen: ScreenView,
}

impl View for Interview {
    type V = InterviewView;

    open spec fn view(&self) -> InterviewView {
        InterviewView {
            offer: self.offer@,
            answers: self.answers@,
            at: self.at as int,
            part: self.part,
            screen: self.screen@,
        }
    }
}

/// The answers before anything was asked.
pub open spec fn first_answers(offer: OfferView) -> AnswersView {
    AnswersView {
        disk: offer.disks[0],
        hostname: "terracotta"@,
        timezone: "UTC"@,
        locale: offer.locales[0],
        keymap: offer.maps[0],
        profile: offer.profiles[0].module,
        modules: catalog::default_modules(offer.extras),
        packages: Seq::empty(),
        username: Seq::empty(),
        user_password: Seq::empty(),
        root_password: Seq::empty(),
        encrypt: false,
        passphrase: Seq::empty(),
        root_uuid: Seq::empty(),
        luks_uuid: None,
    }
}

/// The modules among some rows of the module library.
pub open spec fn chosen_modules(extras: Seq<EntryView>, rows: Seq<int>) -> Seq<Text>
    decreases rows.len(),
{
    if rows.len() == 0 {
        Seq::empty()
    } else {
        let front = chosen_modules(extras, rows.drop_last());
        match extras[rows.last()] {
            EntryView::Module(m) => front.push(m.module),
            EntryView::Group(_) => front,
        }
    }
}

/// Whether no UUID is among the answers: nothing has one yet, and none is asked
/// for.
pub open spec fn no_uuids(a: AnswersView) -> bool {
    a.root_uuid.len() == 0 && a.luks_uuid is None
}

/// Whether a profile is on offer.
pub open spec fn offers_profile(profiles: Seq<ProfileView>, module: Text) -> bool {
    exists|i: int| 0 <= i < profiles.len() && (#[trigger] profiles[i]).module == module
}

/// Whether a module is on offer.
pub open spec fn offers_module(extras: Seq<EntryView>, module: Text) -> bool {
    exists|i: int|
        0 <= i < extras.len() && (#[trigger] extras[i] matches EntryView::Module(m) && m.module
            == module)
}

/// Whether a text is the name of one package.
pub open spec fn is_package(name: Text) -> bool {
    text::is_word(name) && rules::Alphabet::Package.spells(name)
}

/// Whether the answer to the question numbered `q` is one that the interview
/// accepts.
pub open spec fn accepted(offer: OfferView, a: AnswersView, q: int) -> bool {
    if q == 0 {
        offer.disks.contains(a.disk) && a.disk.busy is None
    } else if q == 1 {
        if a.encrypt {
            (CheckView::Password { allow_empty: false }).complaint(a.passphrase) is None
        } else {
            a.passphrase.len() == 0
        }
    } else if q == 3 {
        CheckView::Hostname.complaint(a.hostname) is None
    } else if q == 4 {
        offer.zones.contains(a.timezone)
    } else if q == 5 {
        offer.locales.contains(a.locale)
    } else if q == 6 {
        offer.maps.contains(a.keymap)
    } else if q == 7 {
        offers_profile(offer.profiles, a.profile)
    } else if q == 8 {
        forall|k: int|
            0 <= k < a.modules.len() ==> offers_module(
                catalog::beyond(offer.extras, a.profile),
                #[trigger] a.modules[k],
            )
    } else if q == 9 {
        text::ascending(a.packages) && forall|k: int|
            0 <= k < a.packages.len() ==> is_package(#[trigger] a.packages[k])
    } else if q == 10 {
        CheckView::Username.complaint(a.username) is None
    } else if q == 11 {
        (CheckView::Password { allow_empty: false }).complaint(a.user_password) is None
    } else if q == 12 {
        (CheckView::Password { allow_empty: a.sudo() }).complaint(a.root_password) is None
    } else {
        true
    }
}

/// Whether the answers to all questions before the one numbered `at` are ones
/// that the interview accepts.
pub open spec fn accepted_before(offer: OfferView, a: AnswersView, at: int) -> bool {
    forall|q: int| 0 <= q < at ==> #[trigger] accepted(offer, a, q)
}

impl InterviewView {
    /// Whether the interview stands at one of its questions: the screen is that
    /// question's, and everything before it has an answer that was accepted.
    pub open spec fn well_formed(self) -> bool {
        &&& 0 <= self.at < SCREENS
        &&& self.part != Part::Question ==> self.at == 1 && self.answers.encrypt
        &&& same_question(
            self.screen,
            question(self.offer, self.answers, self.at, self.part),
        )
        &&& accepted_before(self.offer, self.answers, self.at)
        &&& no_uuids(self.answers)
    }

    /// The interview at a question that has just opened.
    pub open spec fn moved(self, answers: AnswersView, at: int, part: Part) -> InterviewView {
        InterviewView { answers, at, part, screen: question(self.offer, answers, at, part), ..self }
    }

    /// The interview with the open question answered.
    pub open spec fn advanced(self, answers: AnswersView) -> (InterviewView, Turn) {
        if self.at + 1 == SCREENS {
            (InterviewView { answers, at: SCREENS as int, ..self }, Turn::Finished)
        } else {
            (self.moved(answers, self.at + 1, Part::Question), Turn::Asking)
        }
    }

    /// The interview after Esc: one question back. From the passphrase that is
    /// the question whether to encrypt, and from the first question it is the
    /// first question.
    pub open spec fn back(self) -> InterviewView {
        if self.part == Part::Passphrase {
            self.moved(self.answers, self.at, Part::Question)
        } else if self.at == 0 {
            self.moved(self.answers, 0, Part::Question)
        } else {
            self.moved(self.answers, self.at - 1, Part::Question)
        }
    }

    /// The answers with the reply of the open screen among them; `None` where
    /// a reply does not answer the question.
    pub open spec fn with_reply(self, reply: ReplyView) -> Option<AnswersView> {
        let a = self.answers;
        if self.at == 0 {
            match reply {
                ReplyView::Row(i) => Some(AnswersView { disk: self.offer.disks[i], ..a }),
                _ => None,
            }
        } else if self.at == 1 {
            match (self.part, reply) {
                (Part::Question, ReplyView::Row(i)) => Some(
                    AnswersView {
                        encrypt: i == 1,
                        passphrase: if i == 1 {
                            a.passphrase
                        } else {
                            Seq::empty()
                        },
                        ..a
                    },
                ),
                (Part::Passphrase, ReplyView::Line(t)) => Some(AnswersView { passphrase: t, ..a }),
                _ => None,
            }
        } else if self.at == 4 {
            match reply {
                ReplyView::Row(i) => Some(AnswersView { timezone: self.offer.zones[i], ..a }),
                _ => None,
            }
        } else if self.at == 5 {
            match reply {
                ReplyView::Row(i) => Some(AnswersView { locale: self.offer.locales[i], ..a }),
                _ => None,
            }
        } else if self.at == 6 {
            match reply {
                ReplyView::Row(i) => Some(AnswersView { keymap: self.offer.maps[i], ..a }),
                _ => None,
            }
        } else if self.at == 7 {
            match reply {
                ReplyView::Row(i) => Some(
                    AnswersView { profile: self.offer.profiles[i].module, ..a },
                ),
                _ => None,
            }
        } else if self.at == 8 {
            match reply {
                ReplyView::Rows(rows) => Some(
                    AnswersView {
                        modules: chosen_modules(
                            catalog::beyond(self.offer.extras, a.profile),
                            rows,
                        ),
                        ..a
                    },
                ),
                _ => None,
            }
        } else if self.at == 13 {
            match reply {
                ReplyView::Done => Some(a),
                _ => None,
            }
        } else {
            match reply {
                ReplyView::Line(t) => Some(
                    if self.at == 2 {
                        a
                    } else if self.at == 3 {
                        AnswersView { hostname: t, ..a }
                    } else if self.at == 9 {
                        AnswersView { packages: text::sorted_set(text::words(t)), ..a }
                    } else if self.at == 10 {
                        AnswersView { username: t, ..a }
                    } else if self.at == 11 {
                        AnswersView { user_password: t, ..a }
                    } else {
                        AnswersView { root_password: t, ..a }
                    },
                ),
                _ => None,
            }
        }
    }

    /// The interview after a reply of the open screen. A yes to encryption
    /// leads to the passphrase where `cryptsetup` is there to use it, to a
    /// message where it is not, and from that back to the question.
    pub open spec fn replied(self, reply: ReplyView, cryptsetup: bool) -> (InterviewView, Turn) {
        if self.part == Part::Missing {
            (self.moved(self.answers, self.at, Part::Question), Turn::Asking)
        } else {
            match self.with_reply(reply) {
                None => (self, Turn::Asking),
                Some(a) => if self.at == 1 && self.part == Part::Question && a.encrypt {
                    (
                        self.moved(
                            a,
                            self.at,
                            if cryptsetup {
                                Part::Passphrase
                            } else {
                                Part::Missing
                            },
                        ),
                        Turn::Asking,
                    )
                } else {
                    self.advanced(a)
                },
            }
        }
    }

    /// The interview after an input, and what became of it. `cryptsetup` is
    /// whether the program of that name is there.
    pub open spec fn pressed(self, input: Answer<Key>, cryptsetup: bool) -> (InterviewView, Turn) {
        match input {
            Err(Nav::Quit) => (self, Turn::Left),
            Err(Nav::Back) => (self.back(), Turn::Asking),
            Ok(key) => {
                let (screen, reply) = self.screen.pressed(key);
                let told = InterviewView { screen, ..self };
                match reply {
                    None => (told, Turn::Asking),
                    Some(r) => told.replied(r, cryptsetup),
                }
            },
        }
    }
}

/// Begins the interview. The defaults live in the answers from the start rather
/// than being rebuilt whenever a screen is drawn: that would silently discard
/// everything chosen the first time round on the way back.
pub fn ask(offer: Offer) -> (out: Interview)
    requires
        offer.disks@.len() > 0,
        offer.profiles@.len() > 0,
        offer.locales@.len() > 0,
        offer.maps@.len() > 0,
    ensures
        out@.offer == offer@,
        out@.answers == first_answers(offer@),
        out@ == out@.moved(first_answers(offer@), 0, Part::Question),
        out@.well_formed(),
{
    assert(offer@.disks[0] == offer.disks@[0]@);
    assert(offer@.profiles[0] == offer.profiles@[0]@);
    assert(offer@.locales[0] == offer.locales@[0]@);
    assert(offer@.maps[0] == offer.maps@[0]@);
    let answers = Answers {
        disk: offer.disks[0].clone(),
        hostname: "terracotta".to_owned(),
        timezone: "UTC".to_owned(),
        locale: offer.locales[0].clone(),
        keymap: offer.maps[0].clone(),
        profile: offer.profiles[0].module.to_owned(),
        modules: defaults(offer.extras.as_slice()),
        packages: Vec::new(),
        username: String::new(),
        user_password: String::new(),
        root_password: String::new(),
        encrypt: false,
        passphrase: String::new(),
        root_uuid: String::new(),
        luks_uuid: None,
    };
    assert(answers@ =~= first_answers(offer@));
    let screen = open_question(&offer, &answers, 0, Part::Question);
    proof {
        lemma_opens_as_itself(offer@, answers@, 0, Part::Question);
    }
    Interview { offer, answers, at: 0, part: Part::Question, screen }
}

impl Interview {
    /// Draws the open question.
    pub fn draw(&mut self, ui: &Ui) -> (out: Vec<String>)
        requires
            old(self)@.well_formed(),
        ensures
            out.deep_view() == old(self)@.screen.lines(*ui),
            final(self)@ == (InterviewView {
                screen: old(self)@.screen.settled(*ui),
                ..old(self)@
            }),
            final(self)@.well_formed(),
    {
        proof {
            lemma_still_the_same_question(
                self@.screen,
                question(self@.offer, self@.answers, self@.at, self@.part),
                Key::Resize,
                *ui,
            );
        }
        self.screen.draw(ui)
    }

    /// Opens a question.
    fn go(&mut self, at: usize, part: Part)
        requires
            at < SCREENS,
        ensures
            final(self)@ == old(self)@.moved(old(self)@.answers, at as int, part),
    {
        self.at = at;
        self.part = part;
        self.screen = open_question(&self.offer, &self.answers, at, part);
    }

    /// The question is answered: opens the next one.
    fn advance(&mut self) -> (out: Turn)
        requires
            old(self).at < SCREENS,
        ensures
            (final(self)@, out) == old(self)@.advanced(old(self)@.answers),
    {
        if self.at + 1 == SCREENS {
            self.at = SCREENS;
            Turn::Finished
        } else {
            let next: usize = self.at + 1;
            self.go(next, Part::Question);
            Turn::Asking
        }
    }

    /// The modules among some rows of what can be added to the profile.
    fn modules_of(&self, rows: &Vec<usize>) -> (out: Vec<String>)
        requires
            forall|k: int|
                0 <= k < rows@.len() ==> #[trigger] rows@[k] < catalog::beyond(
                    self@.offer.extras,
                    self@.answers.profile,
                ).len(),
        ensures
            out.deep_view() == chosen_modules(
                catalog::beyond(self@.offer.extras, self@.answers.profile),
                widgets::ints(rows@),
            ),
    {
        let list = extras_beyond(self.offer.extras.as_slice(), self.answers.profile.as_str());
        let ghost extras = list.deep_view();
        assert(extras.len() == list@.len());
        let ghost all = widgets::ints(rows@);
        let mut out: Vec<String> = Vec::new();
        let mut k: usize = 0;
        assert(out.deep_view() == chosen_modules(extras, all.take(0)));
        while k < rows.len()
            invariant
                extras == list.deep_view(),
                all == widgets::ints(rows@),
                forall|k: int| 0 <= k < rows@.len() ==> #[trigger] rows@[k] < list@.len(),
                k <= rows.len(),
                out.deep_view() == chosen_modules(extras, all.take(k as int)),
            decreases rows.len() - k,
        {
            assert(all.take(k + 1).drop_last() == all.take(k as int));
            assert(all.take(k + 1).last() == rows@[k as int]);
            let i: usize = rows[k];
            assert(extras[i as int] == list@[i as int]@);
            if let Entry::Module(m) = &list[i] {
                emit(&mut out, m.module.to_owned());
            }
            k += 1;
        }
        assert(all.take(k as int) == all);
        out
    }

    /// Takes the reply of the open screen.
    fn reply(&mut self, reply: Reply, cryptsetup: bool) -> (out: Turn)
        requires
            old(self).at < SCREENS,
            reply_fits(old(self)@, reply@),
        ensures
            (final(self)@, out) == old(self)@.replied(reply@, cryptsetup),
    {
        let ghost was = self@;
        let at = self.at;
        if self.part == Part::Missing {
            self.go(at, Part::Question);
            return Turn::Asking;
        }
        match reply {
            Reply::Row(i) => {
                if at == 0 {
                    assert(was.offer.disks[i as int] == self.offer.disks@[i as int]@);
                    self.answers.disk = self.offer.disks[i].clone();
                } else if at == 1 && self.part == Part::Question {
                    self.answers.encrypt = i == 1;
                    if self.answers.encrypt {
                        self.go(
                            at,
                            if cryptsetup {
                                Part::Passphrase
                            } else {
                                Part::Missing
                            },
                        );
                        return Turn::Asking;
                    }
                    self.answers.passphrase = String::new();
                    assert(self.answers.passphrase@ == Seq::<char>::empty());
                } else if at == 4 {
                    assert(was.offer.zones[i as int] == self.offer.zones@[i as int]@);
                    self.answers.timezone = self.offer.zones[i].clone();
                } else if at == 5 {
                    assert(was.offer.locales[i as int] == self.offer.locales@[i as int]@);
                    self.answers.locale = self.offer.locales[i].clone();
                } else if at == 6 {
                    assert(was.offer.maps[i as int] == self.offer.maps@[i as int]@);
                    self.answers.keymap = self.offer.maps[i].clone();
                } else if at == 7 {
                    assert(was.offer.profiles[i as int] == self.offer.profiles@[i as int]@);
                    self.answers.profile = self.offer.profiles[i].module.to_owned();
                } else {
                    return Turn::Asking;
                }
            },
            Reply::Rows(rows) => {
                if at != 8 {
                    return Turn::Asking;
                }
                assert forall|k: int| 0 <= k < rows@.len() implies #[trigger] rows@[k]
                    < catalog::beyond(self@.offer.extras, self@.answers.profile).len() by {
                    assert(widgets::ints(rows@)[k] == rows@[k]);
                }
                self.answers.modules = self.modules_of(&rows);
            },
            Reply::Line(t) => {
                if at == 1 && self.part == Part::Passphrase {
                    self.answers.passphrase = t;
                } else if at == 2 {
                } else if at == 3 {
                    self.answers.hostname = t;
                } else if at == 9 {
                    self.answers.packages = sort_unique(words_of(t.as_str()).as_slice());
                } else if at == 10 {
                    self.answers.username = t;
                } else if at == 11 {
                    self.answers.user_password = t;
                } else if at == 12 {
                    self.answers.root_password = t;
                } else {
                    return Turn::Asking;
                }
            },
            Reply::Done => {
                if at != 13 {
                    return Turn::Asking;
                }
            },
        }
        assert(Some(self@.answers) == was.with_reply(reply@));
        self.advance()
    }

    /// Takes an input: a key for the open screen, or the way out of it.
    /// `cryptsetup` is whether the program of that name is on `PATH`, which is
    /// asked when encryption is chosen: a missing `cryptsetup` cannot fail an
    /// unencrypted install.
    pub fn press(&mut self, input: Answer<Key>, cryptsetup: bool) -> (out: Turn)
        requires
            old(self)@.well_formed(),
        ensures
            (final(self)@, out) == old(self)@.pressed(input, cryptsetup),
            out != Turn::Finished ==> final(self)@.well_formed(),
            out == Turn::Finished ==> accepted_before(
                final(self)@.offer,
                final(self)@.answers,
                SCREENS as int,
            ) && no_uuids(final(self)@.answers),
    {
        proof {
            lemma_pressing_keeps_order(self@, input, cryptsetup);
        }
        match input {
            Err(Nav::Quit) => Turn::Left,
            Err(Nav::Back) => {
                let at: usize = if self.part == Part::Passphrase || self.at == 0 {
                    self.at
                } else {
                    self.at - 1
                };
                self.go(at, Part::Question);
                Turn::Asking
            },
            Ok(key) => {
                proof {
                    lemma_still_the_same_question(
                        self@.screen,
                        question(self@.offer, self@.answers, self@.at, self@.part),
                        key,
                        Ui { cols: 0, rows: 0 },
                    );
                    lemma_replies_fit(self@, key);
                }
                match self.screen.press(key) {
                    None => Turn::Asking,
                    Some(r) => self.reply(r, cryptsetup),
                }
            },
        }
    }
}

/// Whether the rows of a reply are rows of the question.
pub open spec fn reply_fits(i: InterviewView, reply: ReplyView) -> bool {
    match reply {
        ReplyView::Row(k) => {
            &&& i.at == 0 ==> 0 <= k < i.offer.disks.len()
            &&& i.at == 4 ==> 0 <= k < i.offer.zones.len()
            &&& i.at == 5 ==> 0 <= k < i.offer.locales.len()
            &&& i.at == 6 ==> 0 <= k < i.offer.maps.len()
            &&& i.at == 7 ==> 0 <= k < i.offer.profiles.len()
        },
        ReplyView::Rows(rows) => i.at == 8 ==> forall|k: int|
            0 <= k < rows.len() ==> 0 <= #[trigger] rows[k] < catalog::beyond(
                i.offer.extras,
                i.answers.profile,
            ).len(),
        _ => true,
    }
}

proof fn lemma_replies_fit(i: InterviewView, key: Key)
    requires
        i.well_formed(),
    ensures
        i.screen.pressed(key).1 matches Some(r) ==> reply_fits(
            InterviewView { screen: i.screen.pressed(key).0, ..i },
            r,
        ),
{
    match i.screen.widget {
        WidgetView::Select(w) => {
            widgets::lemma_only_enabled_rows_are_chosen(w, key);
        },
        WidgetView::Multiselect(w) => {
            let p = |k: int| w.chosen[k];
            widgets::lemma_picked(w.chosen.len() as int, p);
        },
        _ => {},
    }
}

proof fn lemma_chosen_modules(extras: Seq<EntryView>, rows: Seq<int>)
    requires
        forall|k: int| 0 <= k < rows.len() ==> 0 <= #[trigger] rows[k] < extras.len(),
    ensures
        forall|k: int|
            0 <= k < chosen_modules(extras, rows).len() ==> offers_module(
                extras,
                #[trigger] chosen_modules(extras, rows)[k],
            ),
    decreases rows.len(),
{
    if rows.len() > 0 {
        let front = rows.drop_last();
        assert(forall|k: int| 0 <= k < front.len() ==> #[trigger] front[k] == rows[k]);
        lemma_chosen_modules(extras, front);
        let all = chosen_modules(extras, rows);
        let less = chosen_modules(extras, front);
        assert forall|k: int| 0 <= k < all.len() implies offers_module(
            extras,
            #[trigger] all[k],
        ) by {
            if k < less.len() {
                assert(all[k] == less[k]);
            } else {
                assert(extras[rows.last()] matches EntryView::Module(m) && m.module == all[k]);
            }
        }
    }
}

proof fn lemma_spelled_packages(t: Text)
    requires
        CheckView::Packages.complaint(t) is None,
    ensures
        text::ascending(text::sorted_set(text::words(t))),
        forall|k: int|
            0 <= k < text::sorted_set(text::words(t)).len() ==> is_package(
                #[trigger] text::sorted_set(text::words(t))[k],
            ),
{
    rules::lemma_accepted_packages_need_no_escapes(t);
    text::lemma_words_are_words(t);
    let words = text::words(t);
    text::lemma_sorted_set(words);
    let sorted = text::sorted_set(words);
    assert forall|k: int| 0 <= k < sorted.len() implies is_package(#[trigger] sorted[k]) by {
        assert(sorted.contains(sorted[k]));
        assert(words.contains(sorted[k]));
        let j = choose|j: int| 0 <= j < words.len() && words[j] == sorted[k];
        assert(rules::Alphabet::Package.spells(words[j]));
        assert(text::is_word(words[j]));
    }
}

/// What a screen is answered with fits the question, and is accepted.
proof fn lemma_row_is_accepted(i: InterviewView, key: Key)
    requires
        i.well_formed(),
        i.part == Part::Question,
        i.screen.widget is Select,
    ensures
        i.screen.pressed(key).1 matches Some(r) ==> (i.with_reply(r) matches Some(a) && accepted_before(
            i.offer,
            a,
            i.at,
        ) && (i.at == 1 && a.encrypt || accepted(i.offer, a, i.at))),
{
    if let Some(r) = i.screen.pressed(key).1 {
        let w = i.screen.widget->Select_0;
        widgets::lemma_only_enabled_rows_are_chosen(w, key);
        let k = r->Row_0;
        if i.at == 0 {
            assert(w.options[k] == screens::disk_option(i.offer.disks[k], i.answers.disk.path));
            assert(i.offer.disks.contains(i.offer.disks[k]));
        } else if i.at == 4 {
            assert(i.offer.zones.contains(i.offer.zones[k]));
        } else if i.at == 5 {
            assert(i.offer.locales.contains(i.offer.locales[k]));
        } else if i.at == 6 {
            assert(i.offer.maps.contains(i.offer.maps[k]));
        } else if i.at == 7 {
            assert(i.offer.profiles[k].module == i.with_reply(r)->Some_0.profile);
        }
        let a = i.with_reply(r)->Some_0;
        assert forall|q: int| 0 <= q < i.at implies #[trigger] accepted(i.offer, a, q) by {
            assert(accepted(i.offer, i.answers, q));
        }
    }
}

proof fn lemma_rows_are_accepted(i: InterviewView, key: Key)
    requires
        i.well_formed(),
        i.screen.widget is Multiselect,
    ensures
        i.screen.pressed(key).1 matches Some(r) ==> (i.with_reply(r) matches Some(a) && accepted_before(
            i.offer,
            a,
            i.at,
        ) && accepted(i.offer, a, i.at)),
{
    if let Some(r) = i.screen.pressed(key).1 {
        lemma_replies_fit(i, key);
        lemma_chosen_modules(catalog::beyond(i.offer.extras, i.answers.profile), r->Rows_0);
        let a = i.with_reply(r)->Some_0;
        assert forall|q: int| 0 <= q < i.at implies #[trigger] accepted(i.offer, a, q) by {
            assert(accepted(i.offer, i.answers, q));
        }
    }
}

proof fn lemma_line_is_accepted(i: InterviewView, key: Key)
    requires
        i.well_formed(),
        i.screen.widget is Field,
    ensures
        i.screen.pressed(key).1 matches Some(r) ==> (i.with_reply(r) matches Some(a) && accepted_before(
            i.offer,
            a,
            i.at,
        ) && accepted(i.offer, a, i.at)),
{
    if let Some(r) = i.screen.pressed(key).1 {
        let w = i.screen.widget->Field_0;
        widgets::lemma_accepted_passes_the_check(w, key);
        if i.at == 9 {
            lemma_spelled_packages(w.value);
        }
        let a = i.with_reply(r)->Some_0;
        assert forall|q: int| 0 <= q < i.at implies #[trigger] accepted(i.offer, a, q) by {
            assert(accepted(i.offer, i.answers, q));
        }
    }
}

proof fn lemma_secret_is_accepted(i: InterviewView, key: Key)
    requires
        i.well_formed(),
        i.screen.widget is Secret,
    ensures
        i.screen.pressed(key).1 matches Some(r) ==> (i.with_reply(r) matches Some(a) && accepted_before(
            i.offer,
            a,
            i.at,
        ) && accepted(i.offer, a, i.at)),
{
    if let Some(r) = i.screen.pressed(key).1 {
        let w = i.screen.widget->Secret_0;
        widgets::lemma_secrets_are_entered_twice(w, key);
        let a = i.with_reply(r)->Some_0;
        assert forall|q: int| 0 <= q < i.at implies #[trigger] accepted(i.offer, a, q) by {
            assert(accepted(i.offer, i.answers, q));
        }
    }
}

proof fn lemma_reply_is_accepted(i: InterviewView, key: Key)
    requires
        i.well_formed(),
        i.part != Part::Missing,
    ensures
        i.screen.pressed(key).1 matches Some(r) ==> (i.with_reply(r) matches Some(a) && accepted_before(
            i.offer,
            a,
            i.at,
        ) && (i.at == 1 && i.part == Part::Question && a.encrypt || accepted_before(
            i.offer,
            a,
            i.at + 1,
        ))),
{
    match i.screen.widget {
        WidgetView::Select(_) => {
            lemma_row_is_accepted(i, key);
        },
        WidgetView::Multiselect(_) => {
            lemma_rows_are_accepted(i, key);
        },
        WidgetView::Field(_) => {
            lemma_line_is_accepted(i, key);
        },
        WidgetView::Secret(_) => {
            lemma_secret_is_accepted(i, key);
        },
        _ => {
            assert(accepted(i.offer, i.answers, 13));
        },
    }
}

/// Whatever is put in, the interview stands at a question with everything
/// before it accepted, or it is finished with everything accepted, or left.
pub proof fn lemma_pressing_keeps_order(i: InterviewView, input: Answer<Key>, cryptsetup: bool)
    requires
        i.well_formed(),
    ensures
        ({
            let (next, turn) = i.pressed(input, cryptsetup);
            &&& turn != Turn::Finished ==> next.well_formed()
            &&& turn == Turn::Finished ==> accepted_before(
                next.offer,
                next.answers,
                SCREENS as int,
            ) && no_uuids(next.answers)
        }),
{
    let (next, turn) = i.pressed(input, cryptsetup);
    match input {
        Err(Nav::Quit) => {},
        Err(Nav::Back) => {
            lemma_opens_as_itself(next.offer, next.answers, next.at, next.part);
        },
        Ok(key) => {
            lemma_still_the_same_question(
                i.screen,
                question(i.offer, i.answers, i.at, i.part),
                key,
                Ui { cols: 0, rows: 0 },
            );
            if i.screen.pressed(key).1 is Some {
                if i.part != Part::Missing {
                    lemma_reply_is_accepted(i, key);
                }
                if turn == Turn::Asking {
                    lemma_opens_as_itself(next.offer, next.answers, next.at, next.part);
                }
            }
        },
    }
}

// ---------------------------------------------------------------------------
// Laws
// ---------------------------------------------------------------------------

/// Esc goes back one question, or from the passphrase to the question it
/// belongs to, and changes no answer.
pub proof fn lemma_esc_goes_back(i: InterviewView, cryptsetup: bool)
    requires
        i.well_formed(),
    ensures
        ({
            let (next, turn) = i.pressed(Err(Nav::Back), cryptsetup);
            &&& turn == Turn::Asking
            &&& next.answers == i.answers
            &&& next.part == Part::Question
            &&& next.at == (if i.at == 0 || i.part == Part::Passphrase {
                i.at
            } else {
                i.at - 1
            })
            &&& next.screen == question(i.offer, i.answers, next.at, Part::Question)
        }),
{
}

/// Ctrl-C leaves the interview from anywhere, and nothing else does.
pub proof fn lemma_only_quitting_leaves(
    i: InterviewView,
    input: Answer<Key>,
    cryptsetup: bool,
)
    requires
        i.well_formed(),
    ensures
        i.pressed(input, cryptsetup).1 == Turn::Left <==> input == Err::<Key, Nav>(Nav::Quit),
{
}

/// The interview is finished only by accepting the review, with every answer
/// one that was accepted, and no question is skipped.
pub proof fn lemma_no_question_is_skipped(
    i: InterviewView,
    input: Answer<Key>,
    cryptsetup: bool,
)
    requires
        i.well_formed(),
    ensures
        ({
            let (next, turn) = i.pressed(input, cryptsetup);
            &&& next.at <= i.at + 1
            &&& turn == Turn::Finished <==> i.at == 13 && input == Ok::<Key, Nav>(Key::Enter)
            &&& turn == Turn::Finished ==> next.answers == i.answers
            &&& next.offer == i.offer
        }),
{
    if let Ok(key) = input {
        if i.screen.pressed(key).1 is Some && i.part != Part::Missing {
            lemma_reply_is_accepted(i, key);
        }
    }
}

/// A disk that is in use or too small is never the one to be erased: past the
/// first question the chosen disk is one of those listed, and free.
pub proof fn lemma_chosen_disk_is_free(i: InterviewView)
    requires
        i.well_formed(),
        i.at > 0,
    ensures
        i.offer.disks.contains(i.answers.disk),
        i.answers.disk.busy is None,
{
    assert(accepted(i.offer, i.answers, 0));
}

/// What is erased holds nothing that is in use: with the disks of the machine on
/// offer, the chosen one is a disk of the listing that is writable, has at least
/// four gibibytes, and has neither a mounted filesystem nor active swap standing
/// on it.
pub proof fn lemma_erased_disk_is_not_in_use(i: InterviewView, listing: Text, tree: Text)
    requires
        i.well_formed(),
        i.at > 0,
        i.offer.disks == block::disk_list(listing, tree),
    ensures
        exists|k: int|
            #![trigger text::text_lines(listing)[k]]
            0 <= k < text::text_lines(listing).len() && {
                let f = block::fields(text::trim(text::text_lines(listing)[k]));
                let rows = block::tree_rows(tree);
                &&& i.answers.disk == block::listed_disk(f, rows)
                &&& block::value_of(f, "RO"@) != Some("1"@)
                &&& i.answers.disk.bytes >= 4 * 1024 * 1024 * 1024
                &&& forall|r: int|
                    0 <= r < rows.len() ==> !block::occupies(
                        rows,
                        #[trigger] rows[r],
                        block::listed_kname(f),
                    )
            },
{
    lemma_chosen_disk_is_free(i);
    let d = choose|d: int| 0 <= d < i.offer.disks.len() && i.offer.disks[d] == i.answers.disk;
    block::lemma_disk_comes_from_listing(listing, tree, d);
    let lines = text::text_lines(listing);
    let k = choose|k: int|
        #![trigger lines[k]]
        0 <= k < lines.len() && {
            let f = block::fields(text::trim(lines[k]));
            block::is_target(f) && block::disk_list(listing, tree)[d] == block::listed_disk(
                f,
                block::tree_rows(tree),
            )
        };
    block::lemma_offered_disk_is_free(
        block::fields(text::trim(lines[k])),
        block::tree_rows(tree),
    );
    assert(lines[k] == text::text_lines(listing)[k]);
}

/// The confirmation is passed only by typing the name of the chosen disk.
pub proof fn lemma_erasing_needs_the_name(i: InterviewView, input: Answer<Key>, cryptsetup: bool)
    requires
        i.well_formed(),
        i.at == 2,
    ensures
        i.pressed(input, cryptsetup).0.at == 3 <==> input == Ok::<Key, Nav>(Key::Enter) && (
        i.screen.widget matches WidgetView::Field(f) && f.value == i.answers.disk.word()),
        i.pressed(input, cryptsetup).0.at > 2 ==> i.pressed(input, cryptsetup).0.answers
            == i.answers,
{
}

/// Root is left without a password only where `wheel` may sudo.
pub proof fn lemma_locked_root_has_sudo(offer: OfferView, a: AnswersView)
    requires
        accepted_before(offer, a, SCREENS as int),
    ensures
        a.root_password.len() == 0 ==> a.sudo(),
        a.user_password.len() > 0,
        a.encrypt ==> a.passphrase.len() > 0,
        !a.encrypt ==> a.passphrase.len() == 0,
{
    assert(accepted(offer, a, 1));
    assert(accepted(offer, a, 11));
    assert(accepted(offer, a, 12));
}

/// Whether nothing is on offer twice: no two disks at one path, no two profiles
/// of one module, no timezone, locale or keymap again.
pub open spec fn each_once(offer: OfferView) -> bool {
    &&& forall|i: int, j: int|
        0 <= i < j < offer.disks.len() ==> (#[trigger] offer.disks[i]).path != (
        #[trigger] offer.disks[j]).path
    &&& forall|i: int, j: int|
        0 <= i < j < offer.profiles.len() ==> (#[trigger] offer.profiles[i]).module != (
        #[trigger] offer.profiles[j]).module
    &&& offer.zones.no_duplicates()
    &&& offer.locales.no_duplicates()
    &&& offer.maps.no_duplicates()
}

proof fn lemma_picked_again(list: Seq<Text>, current: Text, k: int)
    requires
        list.no_duplicates(),
        0 <= k < list.len(),
        list[k] == current,
    ensures
        ({
            let s = SelectView::opened(screens::pick_options(list, current));
            s.pressed(Key::Enter, s.rows()).1 == Some(k)
        }),
{
    let options = screens::pick_options(list, current);
    assert forall|j: int| 0 <= j < options.len() && (#[trigger] options[j]).checked implies j
        == k by {
        assert(list[j] == current);
    }
    assert(options[k].checked && options[k].selectable());
    widgets::lemma_enter_keeps_the_answer(options, k);
}

/// Earlier answers are still there: Enter alone, on a question that was answered
/// before and opens again, leaves the answers as they were and leads on. That
/// holds of every question with a list of one choice and of every line of text
/// but the confirmation: a disk is confirmed anew, and secrets are never shown,
/// so they are typed again. A yes to encryption therefore leads on to the
/// passphrase.
pub proof fn lemma_answers_are_still_there(i: InterviewView, cryptsetup: bool)
    requires
        i.well_formed(),
        i.screen == question(i.offer, i.answers, i.at, Part::Question),
        i.part == Part::Question,
        accepted(i.offer, i.answers, i.at),
        each_once(i.offer),
        i.at == 0 || i.at == 1 || 3 <= i.at <= 7 || i.at == 9 || i.at == 10,
    ensures
        ({
            let next = i.pressed(Ok(Key::Enter), cryptsetup).0;
            &&& next.answers == i.answers
            &&& if i.at == 1 && i.answers.encrypt {
                next.at == 1 && next.part == (if cryptsetup {
                    Part::Passphrase
                } else {
                    Part::Missing
                })
            } else {
                next.at == i.at + 1
            }
        }),
{
    let a = i.answers;
    if i.at == 0 {
        let k = choose|k: int| 0 <= k < i.offer.disks.len() && i.offer.disks[k] == a.disk;
        let options = screens::disk_options(i.offer.disks, a.disk.path);
        assert forall|j: int| 0 <= j < options.len() && (#[trigger] options[j]).checked implies j
            == k by {
            assert(i.offer.disks[j].path == i.offer.disks[k].path);
        }
        assert(options[k].checked && options[k].selectable());
        widgets::lemma_enter_keeps_the_answer(options, k);
    } else if i.at == 1 {
        let options = screens::encrypt_options(a.encrypt);
        let k = if a.encrypt {
            1int
        } else {
            0int
        };
        assert(options[k].checked && options[k].selectable());
        widgets::lemma_enter_keeps_the_answer(options, k);
        assert(a.passphrase.len() == 0 ==> a.passphrase =~= Seq::<char>::empty());
    } else if i.at == 4 {
        let k = choose|k: int| 0 <= k < i.offer.zones.len() && i.offer.zones[k] == a.timezone;
        lemma_picked_again(i.offer.zones, a.timezone, k);
    } else if i.at == 5 {
        let k = choose|k: int| 0 <= k < i.offer.locales.len() && i.offer.locales[k] == a.locale;
        lemma_picked_again(i.offer.locales, a.locale, k);
    } else if i.at == 6 {
        let k = choose|k: int| 0 <= k < i.offer.maps.len() && i.offer.maps[k] == a.keymap;
        lemma_picked_again(i.offer.maps, a.keymap, k);
    } else if i.at == 7 {
        let k = choose|k: int|
            0 <= k < i.offer.profiles.len() && (#[trigger] i.offer.profiles[k]).module == a.profile;
        let options = screens::profile_options(i.offer.profiles, a.profile);
        assert forall|j: int| 0 <= j < options.len() && (#[trigger] options[j]).checked implies j
            == k by {
            assert(i.offer.profiles[j].module == i.offer.profiles[k].module);
        }
        assert(options[k].checked && options[k].selectable());
        widgets::lemma_enter_keeps_the_answer(options, k);
    } else if i.at == 9 {
        let line = text::joined(a.packages, " "@);
        text::lemma_words_of_joined(a.packages);
        text::lemma_sorting_the_sorted(a.packages);
        rules::lemma_accepted_packages_need_no_escapes(line);
    }
    assert(i.pressed(Ok(Key::Enter), cryptsetup).0.answers =~= a);
}

proof fn lemma_chosen_contains(extras: Seq<EntryView>, rows: Seq<int>, i: int)
    requires
        forall|k: int|
            0 <= k < rows.len() ==> 0 <= #[trigger] rows[k] < extras.len()
                && extras[rows[k]] is Module,
        forall|j: int, k: int|
            0 <= j < k < extras.len() && (#[trigger] extras[j]) is Module && (
            #[trigger] extras[k]) is Module ==> extras[j]->Module_0.module
                != extras[k]->Module_0.module,
        0 <= i < extras.len(),
        extras[i] is Module,
    ensures
        chosen_modules(extras, rows).contains(extras[i]->Module_0.module) <==> rows.contains(i),
    decreases rows.len(),
{
    if rows.len() > 0 {
        let front = rows.drop_last();
        assert(forall|k: int| 0 <= k < front.len() ==> #[trigger] front[k] == rows[k]);
        lemma_chosen_contains(extras, front, i);
        let all = chosen_modules(extras, rows);
        let less = chosen_modules(extras, front);
        let name = extras[i]->Module_0.module;
        let last = rows[rows.len() - 1];
        assert(all == less.push(extras[last]->Module_0.module));
        if all.contains(name) {
            let k = choose|k: int| 0 <= k < all.len() && all[k] == name;
            if k < less.len() {
                assert(less[k] == name);
                let j = choose|j: int| 0 <= j < front.len() && front[j] == i;
                assert(rows[j] == i);
            } else {
                if last < i {
                    assert(extras[last]->Module_0.module != extras[i]->Module_0.module);
                } else if last > i {
                    assert(extras[i]->Module_0.module != extras[last]->Module_0.module);
                }
                assert(rows[rows.len() - 1] == i);
            }
        }
        if rows.contains(i) {
            let j = choose|j: int| 0 <= j < rows.len() && rows[j] == i;
            if j < front.len() {
                assert(front[j] == i);
                let k = choose|k: int| 0 <= k < less.len() && less[k] == name;
                assert(all[k] == name);
            } else {
                assert(all[less.len() as int] == name);
            }
        }
    }
}

/// The modules question opens again with the marks it was left with, so Enter
/// alone leaves the chosen modules as they were.
pub proof fn lemma_marks_come_back(extras: Seq<EntryView>, marks: Seq<bool>)
    requires
        marks.len() == extras.len(),
        forall|k: int| 0 <= k < extras.len() && #[trigger] marks[k] ==> extras[k] is Module,
        forall|j: int, k: int|
            0 <= j < k < extras.len() && (#[trigger] extras[j]) is Module && (
            #[trigger] extras[k]) is Module ==> extras[j]->Module_0.module
                != extras[k]->Module_0.module,
    ensures
        ({
            let chosen = chosen_modules(extras, widgets::marked_rows(marks));
            let again = MultiselectView::opened(screens::module_options(extras, chosen));
            &&& again.chosen == marks
            &&& again.pressed(Key::Enter).1 == Some(widgets::marked_rows(marks))
        }),
{
    let rows = widgets::marked_rows(marks);
    let p = |k: int| marks[k];
    widgets::lemma_picked(marks.len() as int, p);
    let chosen = chosen_modules(extras, rows);
    let again = MultiselectView::opened(screens::module_options(extras, chosen));
    assert forall|k: int| 0 <= k < rows.len() implies 0 <= #[trigger] rows[k] < extras.len()
        && extras[rows[k]] is Module by {
        assert(p(rows[k]));
        assert(marks[rows[k]]);
    }
    assert forall|k: int| 0 <= k < extras.len() implies again.chosen[k] == marks[k] by {
        if extras[k] is Module {
            lemma_chosen_contains(extras, rows, k);
            if marks[k] {
                assert(p(k));
                assert(rows.contains(k));
            }
            if rows.contains(k) {
                let j = choose|j: int| 0 <= j < rows.len() && rows[j] == k;
                assert(p(rows[j]));
            }
        } else {
            assert(!marks[k]);
        }
    }
    assert(again.chosen =~= marks);
}

/// What the profile already covers is not asked about: no row of the modules
/// question is such a module, and none is among the modules of a finished
/// interview.
pub proof fn lemma_covered_modules_are_not_asked(offer: OfferView, a: AnswersView, k: int)
    ensures
        0 <= k < catalog::beyond(offer.extras, a.profile).len() ==> (catalog::beyond(
            offer.extras,
            a.profile,
        )[k] matches EntryView::Module(m) ==> !catalog::covers(a.profile, m.module)),
        accepted(offer, a, 8) && 0 <= k < a.modules.len() ==> !catalog::covers(
            a.profile,
            a.modules[k],
        ),
{
    let rows = catalog::beyond(offer.extras, a.profile);
    if 0 <= k < rows.len() {
        if let EntryView::Module(m) = rows[k] {
            assert(rows.contains(EntryView::Module(m)));
            catalog::lemma_covered_modules_are_left_out(offer.extras, a.profile, m);
        }
    }
    if accepted(offer, a, 8) && 0 <= k < a.modules.len() {
        assert(offers_module(rows, a.modules[k]));
        let i = choose|i: int|
            0 <= i < rows.len() && (#[trigger] rows[i] matches EntryView::Module(m) && m.module
                == a.modules[k]);
        let m = rows[i]->Module_0;
        assert(rows.contains(EntryView::Module(m)));
        catalog::lemma_covered_modules_are_left_out(offer.extras, a.profile, m);
    }
}

// ---------------------------------------------------------------------------
// What a reply comes to
// ---------------------------------------------------------------------------

/// A line that the open screen is answered with becomes the answer, whatever it
/// was before, and no other answer changes: the hostname, the username, the
/// user's password, root's password and the passphrase are the very text, and
/// the interview goes on to the next question.
pub proof fn lemma_typed_answers_are_taken(
    i: InterviewView,
    key: Key,
    t: Text,
    cryptsetup: bool,
)
    requires
        i.well_formed(),
        i.screen.pressed(key).1 == Some(ReplyView::Line(t)),
    ensures
        ({
            let (next, turn) = i.pressed(Ok(key), cryptsetup);
            &&& i.at == 1 ==> next.answers == (AnswersView { passphrase: t, ..i.answers })
            &&& i.at == 2 ==> next.answers == i.answers
            &&& i.at == 3 ==> next.answers == (AnswersView { hostname: t, ..i.answers })
            &&& i.at == 10 ==> next.answers == (AnswersView { username: t, ..i.answers })
            &&& i.at == 11 ==> next.answers == (AnswersView { user_password: t, ..i.answers })
            &&& i.at == 12 ==> next.answers == (AnswersView { root_password: t, ..i.answers })
            &&& next.at == i.at + 1
            &&& next.part == Part::Question
            &&& turn == Turn::Asking
        }),
{
}

/// The packages are exactly the words of the line, in order and each once, and
/// no other answer changes.
pub proof fn lemma_packages_are_the_words(i: InterviewView, key: Key, t: Text, cryptsetup: bool)
    requires
        i.well_formed(),
        i.at == 9,
        i.screen.pressed(key).1 == Some(ReplyView::Line(t)),
    ensures
        ({
            let next = i.pressed(Ok(key), cryptsetup).0;
            &&& next.answers == (AnswersView { packages: next.answers.packages, ..i.answers })
            &&& text::ascending(next.answers.packages)
            &&& forall|p: Text| #[trigger]
                next.answers.packages.contains(p) <==> text::words(t).contains(p)
            &&& next.at == 10
        }),
{
    text::lemma_sorted_set(text::words(t));
}

/// A row that is chosen becomes the answer: the disk, the timezone, the locale,
/// the keymap or the profile of that very row, and no other answer changes.
pub proof fn lemma_chosen_rows_are_taken(i: InterviewView, key: Key, k: int, cryptsetup: bool)
    requires
        i.well_formed(),
        i.screen.pressed(key).1 == Some(ReplyView::Row(k)),
    ensures
        ({
            let next = i.pressed(Ok(key), cryptsetup).0;
            &&& i.at == 0 ==> 0 <= k < i.offer.disks.len() && next.answers == (AnswersView {
                disk: i.offer.disks[k],
                ..i.answers
            })
            &&& i.at == 4 ==> 0 <= k < i.offer.zones.len() && next.answers == (AnswersView {
                timezone: i.offer.zones[k],
                ..i.answers
            })
            &&& i.at == 5 ==> 0 <= k < i.offer.locales.len() && next.answers == (AnswersView {
                locale: i.offer.locales[k],
                ..i.answers
            })
            &&& i.at == 6 ==> 0 <= k < i.offer.maps.len() && next.answers == (AnswersView {
                keymap: i.offer.maps[k],
                ..i.answers
            })
            &&& i.at == 7 ==> 0 <= k < i.offer.profiles.len() && next.answers == (AnswersView {
                profile: i.offer.profiles[k].module,
                ..i.answers
            })
            &&& i.at != 1 ==> next.at == i.at + 1
        }),
{
    lemma_replies_fit(i, key);
}

/// Yes to encryption asks for a passphrase before anything else, or says that
/// nothing here can encrypt; no forgets any passphrase and goes on. Neither
/// changes another answer, and from the message there is a way back to the
/// question.
pub proof fn lemma_encryption_choice(i: InterviewView, key: Key, k: int, cryptsetup: bool)
    requires
        i.well_formed(),
        i.at == 1,
        i.screen.pressed(key).1 == Some(ReplyView::Row(k)),
    ensures
        ({
            let next = i.pressed(Ok(key), cryptsetup).0;
            &&& k == 0 || k == 1
            &&& k == 1 ==> next.at == 1 && next.answers == (AnswersView {
                encrypt: true,
                ..i.answers
            }) && (next.part == Part::Passphrase <==> cryptsetup) && (next.part == Part::Missing
                <==> !cryptsetup)
            &&& k == 0 ==> next.at == 2 && !next.answers.encrypt && next.answers.passphrase.len()
                == 0 && next.answers == (AnswersView {
                encrypt: false,
                passphrase: next.answers.passphrase,
                ..i.answers
            })
        }),
{
    if let WidgetView::Select(w) = i.screen.widget {
        widgets::lemma_only_enabled_rows_are_chosen(w, key);
    }
}

/// The message that nothing here can encrypt is left by Enter for the question,
/// with every answer as it was.
pub proof fn lemma_message_leads_back(i: InterviewView, cryptsetup: bool)
    requires
        i.well_formed(),
        i.part == Part::Missing,
    ensures
        ({
            let next = i.pressed(Ok(Key::Enter), cryptsetup).0;
            next.at == 1 && next.part == Part::Question && next.answers == i.answers
        }),
{
}

/// The modules are exactly those of the marked rows, and no other answer
/// changes.
pub proof fn lemma_marked_modules_are_taken(
    i: InterviewView,
    key: Key,
    rows: Seq<int>,
    cryptsetup: bool,
    name: Text,
)
    requires
        i.well_formed(),
        i.at == 8,
        i.screen.pressed(key).1 == Some(ReplyView::Rows(rows)),
    ensures
        ({
            let next = i.pressed(Ok(key), cryptsetup).0;
            let list = catalog::beyond(i.offer.extras, i.answers.profile);
            &&& next.answers == (AnswersView { modules: next.answers.modules, ..i.answers })
            &&& next.at == 9
            &&& next.answers.modules.contains(name) <==> exists|k: int|
                #![trigger rows[k]]
                0 <= k < rows.len() && 0 <= rows[k] < list.len()
                    && (list[rows[k]] matches EntryView::Module(m) && m.module == name)
        }),
{
    lemma_replies_fit(i, key);
    lemma_modules_of_rows(catalog::beyond(i.offer.extras, i.answers.profile), rows, name);
}

proof fn lemma_modules_of_rows(list: Seq<EntryView>, rows: Seq<int>, name: Text)
    requires
        forall|k: int| 0 <= k < rows.len() ==> 0 <= #[trigger] rows[k] < list.len(),
    ensures
        chosen_modules(list, rows).contains(name) <==> exists|k: int|
            #![trigger rows[k]]
            0 <= k < rows.len() && 0 <= rows[k] < list.len()
                && (list[rows[k]] matches EntryView::Module(m) && m.module == name),
    decreases rows.len(),
{
    if rows.len() > 0 {
        let front = rows.drop_last();
        assert(forall|k: int| 0 <= k < front.len() ==> #[trigger] front[k] == rows[k]);
        lemma_modules_of_rows(list, front, name);
        let all = chosen_modules(list, rows);
        let some = chosen_modules(list, front);
        let last = rows[rows.len() - 1];
        if all.contains(name) {
            let j = choose|j: int| 0 <= j < all.len() && all[j] == name;
            if j < some.len() {
                assert(some[j] == name);
                let k = choose|k: int|
                    #![trigger front[k]]
                    0 <= k < front.len() && 0 <= front[k] < list.len()
                        && (list[front[k]] matches EntryView::Module(m) && m.module == name);
                assert(rows[k] == front[k]);
            } else {
                assert(list[last] matches EntryView::Module(m) && m.module == name);
            }
        }
        if exists|k: int|
            #![trigger rows[k]]
            0 <= k < rows.len() && 0 <= rows[k] < list.len()
                && (list[rows[k]] matches EntryView::Module(m) && m.module == name) {
            let k = choose|k: int|
                #![trigger rows[k]]
                0 <= k < rows.len() && 0 <= rows[k] < list.len()
                    && (list[rows[k]] matches EntryView::Module(m) && m.module == name);
            if k < front.len() {
                assert(front[k] == rows[k]);
                let j = choose|j: int| 0 <= j < some.len() && some[j] == name;
                assert(all[j] == name);
            } else {
                assert(all[some.len() as int] == name);
            }
        }
    }
}

/// A key that does not answer the open screen changes no answer and leaves the
/// question open.
pub proof fn lemma_unanswered_keys_change_nothing(i: InterviewView, key: Key, cryptsetup: bool)
    requires
        i.well_formed(),
        i.screen.pressed(key).1 is None,
    ensures
        ({
            let (next, turn) = i.pressed(Ok(key), cryptsetup);
            &&& next.answers == i.answers && next.at == i.at && next.part == i.part
            &&& next.screen == i.screen.pressed(key).0
            &&& turn == Turn::Asking
        }),
{
}

/// Every question with a list offers all there is, in its order: each disk by
/// its path and to be chosen exactly when it is free, each timezone, locale and
/// keymap, each profile, and each row of the library.
pub proof fn lemma_questions_offer_everything(i: InterviewView, k: int)
    requires
        i.well_formed(),
        i.part == Part::Question,
    ensures
        i.at == 0 ==> (i.screen.widget matches WidgetView::Select(w) && w.options.len()
            == i.offer.disks.len() && (0 <= k < w.options.len() ==> w.options[k].label
            == i.offer.disks[k].path && (w.options[k].selectable() <==> i.offer.disks[k].busy is None))),
        i.at == 1 ==> (i.screen.widget matches WidgetView::Select(w) && w.options.len() == 2
            && w.options[0].label == "No"@ && w.options[1].label == "Yes"@
            && w.options[0].selectable() && w.options[1].selectable()),
        i.at == 4 ==> (i.screen.widget matches WidgetView::Select(w) && offers_texts(
            w.options,
            i.offer.zones,
        )),
        i.at == 5 ==> (i.screen.widget matches WidgetView::Select(w) && offers_texts(
            w.options,
            i.offer.locales,
        )),
        i.at == 6 ==> (i.screen.widget matches WidgetView::Select(w) && offers_texts(
            w.options,
            i.offer.maps,
        )),
        i.at == 7 ==> (i.screen.widget matches WidgetView::Select(w) && w.options.len()
            == i.offer.profiles.len() && (0 <= k < w.options.len() ==> w.options[k].label
            == i.offer.profiles[k].label && w.options[k].selectable())),
        i.at == 8 ==> (i.screen.widget matches WidgetView::Multiselect(w) && {
            let list = catalog::beyond(i.offer.extras, i.answers.profile);
            &&& w.options.len() == list.len()
            &&& 0 <= k < list.len() ==> match list[k] {
                EntryView::Group(g) => w.options[k].heading && w.options[k].label == g,
                EntryView::Module(m) => w.options[k].selectable() && w.options[k].label == m.label,
            }
        }),
{
}

/// Whether rows are these texts, each to be chosen.
pub open spec fn offers_texts(options: Seq<OptView>, list: Seq<Text>) -> bool {
    &&& options.len() == list.len()
    &&& forall|k: int|
        0 <= k < list.len() ==> (#[trigger] options[k]).label == list[k] && options[k].selectable()
}

/// Each line of text is held to its own rule, and each secret to whether it may
/// be empty: the confirmation to the chosen disk's name, the hostname, the
/// packages and the username to theirs, and root's password to whether `wheel`
/// may sudo.
pub proof fn lemma_questions_have_their_rules(i: InterviewView)
    requires
        i.well_formed(),
    ensures
        i.at == 1 && i.part == Part::Passphrase ==> (i.screen.widget matches WidgetView::Secret(w)
            && !w.allow_empty),
        i.at == 2 ==> (i.screen.widget matches WidgetView::Field(f) && f.check == (CheckView::Word {
            word: i.answers.disk.word(),
        })),
        i.at == 3 ==> (i.screen.widget matches WidgetView::Field(f) && f.check
            == CheckView::Hostname && !f.mask),
        i.at == 9 ==> (i.screen.widget matches WidgetView::Field(f) && f.check
            == CheckView::Packages && !f.mask),
        i.at == 10 ==> (i.screen.widget matches WidgetView::Field(f) && f.check
            == CheckView::Username && !f.mask),
        i.at == 11 ==> (i.screen.widget matches WidgetView::Secret(w) && !w.allow_empty),
        i.at == 12 ==> (i.screen.widget matches WidgetView::Secret(w) && (w.allow_empty <==>
            i.answers.profile != "@kiln/profiles/minimal"@ || i.answers.modules.contains(
            "@kiln/security/wheel-sudo"@,
        ))),
        i.at == 13 ==> i.screen.widget is Review,
{
}

/// The answers that an interview starts from are the first of each list, the
/// modules that are pre-checked, and no account, password or encryption.
pub proof fn lemma_first_answers(offer: OfferView)
    ensures
        ({
            let a = first_answers(offer);
            &&& a.disk == offer.disks[0] && a.locale == offer.locales[0] && a.keymap
                == offer.maps[0] && a.profile == offer.profiles[0].module
            &&& a.hostname == "terracotta"@ && a.timezone == "UTC"@
            &&& a.packages.len() == 0 && a.username.len() == 0 && a.user_password.len() == 0
                && a.root_password.len() == 0 && a.passphrase.len() == 0 && !a.encrypt
            &&& no_uuids(a)
            &&& a.modules == catalog::default_modules(offer.extras)
        }),
{
}

/// The interview can begin exactly when the disks could be listed, one of them
/// is free, and the library has a profile.
pub proof fn lemma_begins_when_it_can(
    disks: Result<Seq<DiskView>, Text>,
    root: Text,
    profiles: Seq<ProfileView>,
)
    ensures
        obstacle(disks, root, profiles) is None <==> (disks matches Ok(list) && profiles.len() > 0
            && exists|k: int| 0 <= k < list.len() && (#[trigger] list[k]).busy is None),
        disks matches Err(e) ==> obstacle(disks, root, profiles) == Some(e),
{
}

/// The modules come in the order of their rows, one for each row that is one.
pub proof fn lemma_modules_in_order_of_rows(list: Seq<EntryView>, a: Seq<int>, b: Seq<int>, r: int)
    ensures
        chosen_modules(list, a + b) == chosen_modules(list, a) + chosen_modules(list, b),
        list[r] matches EntryView::Module(m) ==> chosen_modules(list, seq![r]) == seq![m.module],
        list[r] is Group ==> chosen_modules(list, seq![r]).len() == 0,
    decreases b.len(),
{
    let one = seq![r];
    assert(one.drop_last() =~= Seq::<int>::empty());
    assert(chosen_modules(list, one.drop_last()) =~= Seq::<Text>::empty());
    if let EntryView::Module(m) = list[r] {
        assert(chosen_modules(list, one) =~= seq![m.module]);
    }
    if b.len() == 0 {
        assert(a + b =~= a);
        assert(chosen_modules(list, a) + chosen_modules(list, b) =~= chosen_modules(list, a));
    } else {
        lemma_modules_in_order_of_rows(list, a, b.drop_last(), r);
        assert((a + b).drop_last() =~= a + b.drop_last());
        assert((a + b).last() == b.last());
        assert(chosen_modules(list, a + b) =~= chosen_modules(list, a) + chosen_modules(list, b));
    }
}

/// The questions are numbered from one to fourteen, and each screen shows its
/// number.
pub proof fn lemma_questions_are_numbered(i: InterviewView)
    requires
        i.well_formed(),
    ensures
        i.screen.page.step == (i.at + 1, 14int),
{
}

/// `wheel` may sudo in every profile but the smallest, and there when the module
/// for it is chosen.
pub proof fn lemma_who_may_sudo(profile: Text, modules: Seq<Text>)
    ensures
        sudo_granted(profile, modules) <==> profile != "@kiln/profiles/minimal"@
            || modules.contains("@kiln/security/wheel-sudo"@),
{
}

} // verus!
