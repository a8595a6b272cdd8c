//! Turning the interview into `/etc/kiln/system.toml`.
//!
//! The line this module draws: if it changes, do you need a new image and a
//! reboot? Everything on the yes side is written here and belongs to Kiln from
//! then on; everything on the no side is done once, in the deployment's `/etc`,
//! by the `steps` module.
//!
//! | answer | where it goes | why |
//! |---|---|---|
//! | profile, modules, extra packages | `include`, `packages.repo` | image content, plainly |
//! | the disk's `root=` | `kernel.cmdline` | a kernel argument not written down is one the next `kiln apply` removes |
//! | LUKS unlock | `kernel.cmdline`, `kernel.dracut_modules`, `packages.repo` | the initramfs unlocks root before anything else runs |
//! | keymap, language, locale generation | `[system]` | Kiln's own table materializes all three |
//!
//! The generated file is meant to be read and then edited: it is the user's
//! configuration from the moment the installer exits.

use vstd::prelude::*;

use crate::interview::{Answers, AnswersView};
use crate::rules;
use crate::text;
use crate::text::{emit, same, sort_unique, tail_after, Text};

verus! {

/// The first lines of the configuration.
pub const HEADER: &'static str = "# Written by terracotta-installer.\nkiln = 1\n\n";

/// The rows of a list, one quoted string to a line.
pub open spec fn quoted_rows(list: Seq<Text>) -> Text
    decreases list.len(),
{
    if list.len() == 0 {
        Seq::empty()
    } else {
        quoted_rows(list.drop_last()) + ("  \""@ + list.last() + "\",\n"@)
    }
}

/// The rows of a list, one quoted string to a line.
fn push_rows(s: &mut String, list: &[String])
    ensures
        final(s)@ == old(s)@ + quoted_rows(list.deep_view()),
{
    let ghost all = list.deep_view();
    let ghost before = s@;
    let mut i: usize = 0;
    assert(before + quoted_rows(all.take(0)) == before);
    while i < list.len()
        invariant
            all == list.deep_view(),
            i <= list.len(),
            s@ == before + quoted_rows(all.take(i as int)),
        decreases list.len() - i,
    {
        assert(all.take(i + 1).drop_last() == all.take(i as int));
        assert(all.take(i + 1).last() == list@[i as int]@);
        let row = "  \"".to_owned().concat(list[i].as_str()).concat("\",\n");
        s.append(row.as_str());
        assert(before + (quoted_rows(all.take(i as int)) + row@) == before + quoted_rows(
            all.take(i as int),
        ) + row@);
        i += 1;
    }
    assert(all.take(i as int) == all);
}

/// The list of modules. It comes before any table header: a bare key written
/// after `[packages]` silently becomes `packages.include`.
pub open spec fn module_list(profile: Text, modules: Seq<Text>) -> Text {
    "include = [\n"@ + ("  \""@ + profile + "\",\n"@) + quoted_rows(modules) + "]\n\n"@
}

/// The `[kernel]` table. The initramfs unlocks root before anything else runs:
/// dracut's crypt module reads `rd.luks.uuid` and `rd.luks.name` off the command
/// line, the same place where `root=` lives.
pub open spec fn kernel_table(root_uuid: Text, luks_uuid: Option<Text>) -> Text {
    match luks_uuid {
        Some(uuid) => "[kernel]\ncmdline = [\"rd.luks.uuid="@ + uuid + "\", \"rd.luks.name="@ + uuid
            + "=root\", \"root=/dev/mapper/root\"]\ndracut_modules = [\"crypt\"]\n\n"@,
        None => "[kernel]\ncmdline = [\"root=UUID="@ + root_uuid + "\"]\n\n"@,
    }
}

/// The packages of the image. `cryptsetup` ships dracut's crypt module: without
/// it in the image an encrypted root cannot be unlocked.
pub open spec fn image_packages(a: AnswersView) -> Seq<Text> {
    text::sorted_set(
        if a.luks_uuid is Some {
            a.packages.push("cryptsetup"@)
        } else {
            a.packages
        },
    )
}

/// The `[packages]` table.
pub open spec fn package_table(packages: Seq<Text>) -> Text {
    if packages.len() == 0 {
        "[packages]\nrepo = []\n\n"@
    } else {
        "[packages]\nrepo = [\n"@ + quoted_rows(packages) + "]\n\n"@
    }
}

/// The value of `system.locale`: `lang` always, and `generate` for anything
/// beyond the one locale glibc's stock archive already carries, in the two
/// columns of `locale.gen`.
pub open spec fn locale_line(locale: Text) -> Text {
    if locale == "C.UTF-8"@ || locale == "C"@ {
        "locale = { lang = \""@ + locale + "\" }\n"@
    } else {
        "locale = { lang = \""@ + locale + "\", generate = [\""@ + locale + " "@
            + text::after_last(locale, '.') + "\"] }\n"@
    }
}

/// The `[system]` table.
pub open spec fn system_table(keymap: Text, locale: Text) -> Text {
    "[system]\nkeymap = \""@ + keymap + "\"\n"@ + locale_line(locale)
}

/// The configuration that some answers come to.
pub open spec fn configuration(a: AnswersView) -> Text {
    HEADER@ + module_list(a.profile, a.modules) + kernel_table(a.root_uuid, a.luks_uuid)
        + package_table(image_packages(a)) + system_table(a.keymap, a.locale)
}

/// The value of `system.locale`.
pub fn locale_field(locale: &str) -> (out: String)
    ensures
        out@ == locale_line(locale@),
{
    if same(locale, "C.UTF-8") || same(locale, "C") {
        return "locale = { lang = \"".to_owned().concat(locale).concat("\" }\n");
    }
    let charmap = tail_after(locale, '.');
    "locale = { lang = \"".to_owned().concat(locale).concat("\", generate = [\"").concat(
        locale,
    ).concat(" ").concat(charmap.as_str()).concat("\"] }\n")
}

/// `/etc/kiln/system.toml`, complete.
pub fn system_toml(a: &Answers) -> (out: String)
    ensures
        out@ == configuration(a@),
{
    let mut list = "include = [\n".to_owned();
    let first = "  \"".to_owned().concat(a.profile.as_str()).concat("\",\n");
    list.append(first.as_str());
    push_rows(&mut list, a.modules.as_slice());
    list.append("]\n\n");

    let kernel = match &a.luks_uuid {
        Some(uuid) => "[kernel]\ncmdline = [\"rd.luks.uuid=".to_owned().concat(
            uuid.as_str(),
        ).concat("\", \"rd.luks.name=").concat(uuid.as_str()).concat(
            "=root\", \"root=/dev/mapper/root\"]\ndracut_modules = [\"crypt\"]\n\n",
        ),
        None => "[kernel]\ncmdline = [\"root=UUID=".to_owned().concat(a.root_uuid.as_str()).concat(
            "\"]\n\n",
        ),
    };

    let mut wanted: Vec<String> = Vec::new();
    let mut i: usize = 0;
    assert(wanted.deep_view() == a.packages.deep_view().take(0));
    while i < a.packages.len()
        invariant
            i <= a.packages.len(),
            wanted.deep_view() == a.packages.deep_view().take(i as int),
        decreases a.packages.len() - i,
    {
        emit(&mut wanted, a.packages[i].clone());
        assert(a.packages.deep_view().take(i + 1) == a.packages.deep_view().take(i as int).push(
            a.packages@[i as int]@,
        ));
        i += 1;
    }
    assert(a.packages.deep_view().take(i as int) == a.packages.deep_view());
    if a.luks_uuid.is_some() {
        emit(&mut wanted, "cryptsetup".to_owned());
    }
    let packages = sort_unique(wanted.as_slice());
    assert(packages.len() == packages.deep_view().len());
    let table = if packages.len() == 0 {
        "[packages]\nrepo = []\n\n".to_owned()
    } else {
        let mut t = "[packages]\nrepo = [\n".to_owned();
        push_rows(&mut t, packages.as_slice());
        t.append("]\n\n");
        t
    };

    let locale = locale_field(a.locale.as_str());
    let system = "[system]\nkeymap = \"".to_owned().concat(a.keymap.as_str()).concat(
        "\"\n",
    ).concat(locale.as_str());

    HEADER.to_owned().concat(list.as_str()).concat(kernel.as_str()).concat(table.as_str()).concat(
        system.as_str(),
    )
}

// ---------------------------------------------------------------------------
// Laws
// ---------------------------------------------------------------------------

/// The list of modules precedes every table header, whatever the answers.
pub proof fn lemma_modules_precede_tables(a: AnswersView)
    ensures
        text::occurs_at(configuration(a), "include = ["@, HEADER@.len() as int),
        forall|j: int|
            #[trigger] text::occurs_at(configuration(a), "\n["@, j) ==> HEADER@.len() < j,
{
    let t = configuration(a);
    reveal_strlit("# Written by terracotta-installer.\nkiln = 1\n\n");
    reveal_strlit("include = [\n");
    reveal_strlit("include = [");
    reveal_strlit("\n[");
    let rest = ("  \""@ + a.profile + "\",\n"@) + quoted_rows(a.modules) + "]\n\n"@ + kernel_table(
        a.root_uuid,
        a.luks_uuid,
    ) + package_table(image_packages(a)) + system_table(a.keymap, a.locale);
    assert(t =~= HEADER@ + "include = [\n"@ + rest);
    assert(t.subrange(HEADER@.len() as int, (HEADER@.len() + 11) as int) =~= "include = ["@);
    assert forall|j: int| #[trigger] text::occurs_at(t, "\n["@, j) implies HEADER@.len() < j by {
        if j <= HEADER@.len() {
            assert(t[j + 1] == t.subrange(j, j + 2)[1]);
            assert(t[j] == t.subrange(j, j + 2)[0]);
        }
    }
}

/// No account reaches the configuration, nor a password, the passphrase, the
/// hostname, the timezone or anything about the disk: answers that differ only
/// in those come to the same configuration.
pub proof fn lemma_accounts_stay_out(a: AnswersView, b: AnswersView)
    requires
        a.profile == b.profile,
        a.modules == b.modules,
        a.packages == b.packages,
        a.keymap == b.keymap,
        a.locale == b.locale,
        a.root_uuid == b.root_uuid,
        a.luks_uuid == b.luks_uuid,
    ensures
        configuration(a) == configuration(b),
{
}

/// The configuration of an encrypted root does not depend on the UUID of the
/// filesystem inside it.
pub proof fn lemma_encrypted_root_has_no_plain_uuid(a: AnswersView, uuid: Text)
    requires
        a.luks_uuid is Some,
    ensures
        configuration((AnswersView { root_uuid: uuid, ..a })) == configuration(a),
{
}

/// The kernel arguments that unlock an encrypted root, dracut's crypt module
/// and the `cryptsetup` package are in the configuration all three together or
/// not at all, as far as it is the installer that adds them.
pub proof fn lemma_encryption_all_or_nothing(a: AnswersView)
    ensures
        match a.luks_uuid {
            Some(uuid) => {
                &&& text::occurs(configuration(a), "rd.luks.uuid="@ + uuid)
                &&& text::occurs(configuration(a), "rd.luks.name="@ + uuid + "=root"@)
                &&& text::occurs(configuration(a), "root=/dev/mapper/root"@)
                &&& text::occurs(configuration(a), "dracut_modules = [\"crypt\"]"@)
                &&& image_packages(a).contains("cryptsetup"@)
            },
            None => {
                &&& kernel_table(a.root_uuid, a.luks_uuid) == "[kernel]\ncmdline = [\"root=UUID="@
                    + a.root_uuid + "\"]\n\n"@
                &&& image_packages(a).contains("cryptsetup"@) == a.packages.contains("cryptsetup"@)
            },
        },
{
    let front = HEADER@ + module_list(a.profile, a.modules);
    let back = package_table(image_packages(a)) + system_table(a.keymap, a.locale);
    let k = kernel_table(a.root_uuid, a.luks_uuid);
    let t = configuration(a);
    assert(t =~= front + k + back);
    match a.luks_uuid {
        Some(uuid) => {
            let head = "[kernel]\ncmdline = [\"rd.luks.uuid="@;
            let mid = "\", \"rd.luks.name="@;
            let end = "=root\", \"root=/dev/mapper/root\"]\ndracut_modules = [\"crypt\"]\n\n"@;
            reveal_strlit("[kernel]\ncmdline = [\"rd.luks.uuid=");
            reveal_strlit("\", \"rd.luks.name=");
            reveal_strlit("=root\", \"root=/dev/mapper/root\"]\ndracut_modules = [\"crypt\"]\n\n");
            reveal_strlit("rd.luks.uuid=");
            reveal_strlit("rd.luks.name=");
            reveal_strlit("=root");
            reveal_strlit("root=/dev/mapper/root");
            reveal_strlit("dracut_modules = [\"crypt\"]");

            let n1 = "rd.luks.uuid="@ + uuid;
            assert(head =~= head.take(21) + "rd.luks.uuid="@);
            text::lemma_occurs_between(front + head.take(21), n1, mid + uuid + end + back);
            assert(t =~= front + head.take(21) + n1 + (mid + uuid + end + back));

            let n2 = "rd.luks.name="@ + uuid + "=root"@;
            assert(mid =~= mid.take(4) + "rd.luks.name="@);
            assert(end =~= "=root"@ + end.skip(5));
            text::lemma_occurs_between(front + head + uuid + mid.take(4), n2, end.skip(5) + back);
            assert(t =~= front + head + uuid + mid.take(4) + n2 + (end.skip(5) + back));

            let n3 = "root=/dev/mapper/root"@;
            assert(end =~= end.take(9) + n3 + end.skip(30));
            text::lemma_occurs_between(
                front + head + uuid + mid + uuid + end.take(9),
                n3,
                end.skip(30) + back,
            );
            assert(t =~= front + head + uuid + mid + uuid + end.take(9) + n3 + (end.skip(30)
                + back));

            let n4 = "dracut_modules = [\"crypt\"]"@;
            assert(end =~= end.take(33) + n4 + end.skip(59));
            text::lemma_occurs_between(
                front + head + uuid + mid + uuid + end.take(33),
                n4,
                end.skip(59) + back,
            );
            assert(t =~= front + head + uuid + mid + uuid + end.take(33) + n4 + (end.skip(59)
                + back));

            let wanted = a.packages.push("cryptsetup"@);
            text::lemma_sorted_set(wanted);
            assert(wanted[wanted.len() - 1] == "cryptsetup"@);
            assert(wanted.contains("cryptsetup"@));
        },
        None => {
            text::lemma_sorted_set(a.packages);
        },
    }
}

/// The packages of the image are those asked for and, with encryption,
/// `cryptsetup`; they come in order and none comes twice.
pub proof fn lemma_packages_in_order(a: AnswersView)
    ensures
        text::ascending(image_packages(a)),
        forall|p: Text| #[trigger]
            image_packages(a).contains(p) <==> a.packages.contains(p) || (a.luks_uuid is Some && p
                == "cryptsetup"@),
{
    let wanted = if a.luks_uuid is Some {
        a.packages.push("cryptsetup"@)
    } else {
        a.packages
    };
    text::lemma_sorted_set(wanted);
    assert forall|p: Text| #[trigger]
        image_packages(a).contains(p) <==> a.packages.contains(p) || (a.luks_uuid is Some && p
            == "cryptsetup"@) by {
        if a.packages.contains(p) {
            let k = choose|k: int| 0 <= k < a.packages.len() && a.packages[k] == p;
            assert(wanted[k] == p);
        }
        if wanted.contains(p) {
            let k = choose|k: int| 0 <= k < wanted.len() && wanted[k] == p;
            if k < a.packages.len() {
                assert(a.packages[k] == p);
            }
        }
        if a.luks_uuid is Some {
            assert(wanted[wanted.len() - 1] == "cryptsetup"@);
        }
    }
}

/// Every package of the image can stand in a quoted string as it is, as long as
/// each package asked for is spelled in the letters of package names: none
/// holds a quote, a backslash or a line break.
pub proof fn lemma_packages_need_no_escapes(a: AnswersView)
    requires
        forall|k: int|
            0 <= k < a.packages.len() ==> rules::Alphabet::Package.spells(#[trigger] a.packages[k]),
    ensures
        forall|k: int, c: int|
            #![trigger image_packages(a)[k][c]]
            0 <= k < image_packages(a).len() && 0 <= c < image_packages(a)[k].len() ==> {
                &&& image_packages(a)[k][c] != '"'
                &&& image_packages(a)[k][c] != '\\'
                &&& image_packages(a)[k][c] != '\n'
            },
{
    lemma_packages_in_order(a);
    reveal_strlit("cryptsetup");
    let all = image_packages(a);
    assert forall|k: int, c: int|
        #![trigger all[k][c]]
        0 <= k < all.len() && 0 <= c < all[k].len() implies all[k][c] != '"' && all[k][c] != '\\'
        && all[k][c] != '\n' by {
        assert(all.contains(all[k]));
        if a.packages.contains(all[k]) {
            let j = choose|j: int| 0 <= j < a.packages.len() && a.packages[j] == all[k];
            assert(rules::Alphabet::Package.spells(a.packages[j]));
            assert(rules::Alphabet::Package.holds(all[k][c]));
        }
    }
}

/// The configuration line by line, for all answers: the list of modules has the
/// profile first and then every chosen module, in their order and one to a line;
/// the kernel's arguments are those of the root that was made; every package is
/// there; and the keymap and the locale are the chosen ones.
pub proof fn lemma_configuration_by_lines(a: AnswersView)
    ensures
        ({
            let row = |name: Text| "  \""@ + name + "\","@;
            let kernel = match a.luks_uuid {
                Some(id) => seq![
                    "cmdline = [\"rd.luks.uuid="@ + id + "\", \"rd.luks.name="@ + id
                        + "=root\", \"root=/dev/mapper/root\"]"@,
                    "dracut_modules = [\"crypt\"]"@,
                ],
                None => seq!["cmdline = [\"root=UUID="@ + a.root_uuid + "\"]"@],
            };
            let packages = if image_packages(a).len() == 0 {
                seq!["repo = []"@]
            } else {
                seq!["repo = ["@] + image_packages(a).map_values(row) + seq!["]"@]
            };
            let locale = if a.locale == "C"@ || a.locale == "C.UTF-8"@ {
                "locale = { lang = \""@ + a.locale + "\" }"@
            } else {
                "locale = { lang = \""@ + a.locale + "\", generate = [\""@ + a.locale + " "@
                    + text::after_last(a.locale, '.') + "\"] }"@
            };
            configuration(a) == text::lined(
                seq!["# Written by terracotta-installer."@, "kiln = 1"@, ""@, "include = ["@]
                    + seq![row(a.profile)] + a.modules.map_values(row) + seq!["]"@, ""@] + seq![
                    "[kernel]"@,
                ] + kernel + seq![""@] + seq!["[packages]"@] + packages + seq![""@] + seq![
                    "[system]"@,
                    "keymap = \""@ + a.keymap + "\""@,
                    locale,
                ],
            )
        }),
{
    let row = |name: Text| "  \""@ + name + "\","@;
    let kernel = match a.luks_uuid {
        Some(id) => seq![
            "cmdline = [\"rd.luks.uuid="@ + id + "\", \"rd.luks.name="@ + id
                + "=root\", \"root=/dev/mapper/root\"]"@,
            "dracut_modules = [\"crypt\"]"@,
        ],
        None => seq!["cmdline = [\"root=UUID="@ + a.root_uuid + "\"]"@],
    };
    let packages = if image_packages(a).len() == 0 {
        seq!["repo = []"@]
    } else {
        seq!["repo = ["@] + image_packages(a).map_values(row) + seq!["]"@]
    };
    let locale = if a.locale == "C"@ || a.locale == "C.UTF-8"@ {
        "locale = { lang = \""@ + a.locale + "\" }"@
    } else {
        "locale = { lang = \""@ + a.locale + "\", generate = [\""@ + a.locale + " "@
            + text::after_last(a.locale, '.') + "\"] }"@
    };
    let head = seq!["# Written by terracotta-installer."@, "kiln = 1"@, ""@, "include = ["@];
    let first = seq![row(a.profile)];
    let modules = a.modules.map_values(row);
    let close = seq!["]"@, ""@];
    let k = seq!["[kernel]"@];
    let gap = seq![""@];
    let p = seq!["[packages]"@];
    let system = seq!["[system]"@, "keymap = \""@ + a.keymap + "\""@, locale];
    lemma_head_lines(a.profile);
    lemma_rows_are_lines(a.modules);
    lemma_kernel_lines(a.root_uuid, a.luks_uuid);
    lemma_package_lines(image_packages(a));
    lemma_system_lines(a.keymap, a.locale);
    text::lemma_lined_apart(head, first);
    text::lemma_lined_apart(head + first, modules);
    text::lemma_lined_apart(head + first + modules, close);
    let l1 = head + first + modules + close;
    text::lemma_lined_apart(l1, k);
    text::lemma_lined_apart(l1 + k, kernel);
    text::lemma_lined_apart(l1 + k + kernel, gap);
    let l2 = l1 + k + kernel + gap;
    text::lemma_lined_apart(l2, p);
    text::lemma_lined_apart(l2 + p, packages);
    text::lemma_lined_apart(l2 + p + packages, gap);
    let l3 = l2 + p + packages + gap;
    text::lemma_lined_apart(l3, system);
    text::lemma_lined_apart(k, kernel);
    text::lemma_lined_apart(k + kernel, gap);
    text::lemma_lined_apart(p, packages);
    text::lemma_lined_apart(p + packages, gap);
    assert(text::lined(l3 + system) =~= text::lined(head) + text::lined(first) + text::lined(
        modules,
    ) + text::lined(close) + (text::lined(k) + text::lined(kernel) + text::lined(gap)) + (
    text::lined(p) + text::lined(packages) + text::lined(gap)) + text::lined(system));
    assert(configuration(a) =~= text::lined(head) + text::lined(first) + text::lined(modules)
        + text::lined(close) + kernel_table(a.root_uuid, a.luks_uuid) + package_table(
        image_packages(a),
    ) + system_table(a.keymap, a.locale));
}

proof fn lemma_head_lines(profile: Text)
    ensures
        ({
            let row = |name: Text| "  \""@ + name + "\","@;
            HEADER@ + "include = [\n"@ == text::lined(
                seq!["# Written by terracotta-installer."@, "kiln = 1"@, ""@, "include = ["@],
            ) && "  \""@ + profile + "\",\n"@ == text::lined(seq![row(profile)]) && "]\n\n"@
                == text::lined(seq!["]"@, ""@])
        }),
{
    let row = |name: Text| "  \""@ + name + "\","@;
    reveal_strlit("# Written by terracotta-installer.\nkiln = 1\n\n");
    reveal_strlit("# Written by terracotta-installer.");
    reveal_strlit("kiln = 1");
    reveal_strlit("");
    reveal_strlit("include = [");
    reveal_strlit("include = [\n");
    reveal_strlit("\",\n");
    reveal_strlit("\",");
    reveal_strlit("]\n\n");
    reveal_strlit("]");
    text::lemma_lined_four(
        "# Written by terracotta-installer."@,
        "kiln = 1"@,
        ""@,
        "include = ["@,
    );
    text::lemma_lined_one(row(profile));
    text::lemma_lined_two("]"@, ""@);
    assert(HEADER@ + "include = [\n"@ =~= "# Written by terracotta-installer."@ + seq!['\n']
        + "kiln = 1"@ + seq!['\n'] + ""@ + seq!['\n'] + "include = ["@ + seq!['\n']);
    assert("  \""@ + profile + "\",\n"@ =~= row(profile) + seq!['\n']);
    assert("]\n\n"@ =~= "]"@ + seq!['\n'] + ""@ + seq!['\n']);
}

proof fn lemma_rows_are_lines(list: Seq<Text>)
    ensures
        ({
            let row = |name: Text| "  \""@ + name + "\","@;
            quoted_rows(list) == text::lined(list.map_values(row))
        }),
    decreases list.len(),
{
    let row = |name: Text| "  \""@ + name + "\","@;
    if list.len() == 0 {
        assert(list.map_values(row) =~= Seq::<Text>::empty());
    } else {
        let front = list.drop_last();
        lemma_rows_are_lines(front);
        assert(list.map_values(row) =~= front.map_values(row) + seq![row(list.last())]);
        text::lemma_lined_apart(front.map_values(row), seq![row(list.last())]);
        text::lemma_lined_one(row(list.last()));
        reveal_strlit("\",\n");
        reveal_strlit("\",");
        assert("  \""@ + list.last() + "\",\n"@ =~= row(list.last()) + seq!['\n']);
    }
}

proof fn lemma_kernel_lines(root_uuid: Text, luks_uuid: Option<Text>)
    ensures
        ({
            let kernel = match luks_uuid {
                Some(id) => seq![
                    "cmdline = [\"rd.luks.uuid="@ + id + "\", \"rd.luks.name="@ + id
                        + "=root\", \"root=/dev/mapper/root\"]"@,
                    "dracut_modules = [\"crypt\"]"@,
                ],
                None => seq!["cmdline = [\"root=UUID="@ + root_uuid + "\"]"@],
            };
            kernel_table(root_uuid, luks_uuid) == text::lined(seq!["[kernel]"@]) + text::lined(
                kernel,
            ) + text::lined(seq![""@])
        }),
{
    reveal_strlit("[kernel]");
    reveal_strlit("");
    text::lemma_lined_one("[kernel]"@);
    text::lemma_lined_one(""@);
    match luks_uuid {
        Some(id) => {
            reveal_strlit("[kernel]\ncmdline = [\"rd.luks.uuid=");
            reveal_strlit("cmdline = [\"rd.luks.uuid=");
            reveal_strlit("=root\", \"root=/dev/mapper/root\"]\ndracut_modules = [\"crypt\"]\n\n");
            reveal_strlit("=root\", \"root=/dev/mapper/root\"]");
            reveal_strlit("dracut_modules = [\"crypt\"]");
            let one = "cmdline = [\"rd.luks.uuid="@ + id + "\", \"rd.luks.name="@ + id
                + "=root\", \"root=/dev/mapper/root\"]"@;
            let two = "dracut_modules = [\"crypt\"]"@;
            text::lemma_lined_two(one, two);
            assert("[kernel]\ncmdline = [\"rd.luks.uuid="@ =~= "[kernel]"@ + seq!['\n']
                + "cmdline = [\"rd.luks.uuid="@);
            assert("=root\", \"root=/dev/mapper/root\"]\ndracut_modules = [\"crypt\"]\n\n"@
                =~= "=root\", \"root=/dev/mapper/root\"]"@ + seq!['\n'] + two + seq!['\n'] + seq![
                '\n',
            ]);
            assert(kernel_table(root_uuid, luks_uuid) =~= "[kernel]"@ + seq!['\n'] + (one + seq![
                '\n',
            ] + two + seq!['\n']) + (""@ + seq!['\n']));
        },
        None => {
            reveal_strlit("[kernel]\ncmdline = [\"root=UUID=");
            reveal_strlit("cmdline = [\"root=UUID=");
            reveal_strlit("\"]\n\n");
            reveal_strlit("\"]");
            let one = "cmdline = [\"root=UUID="@ + root_uuid + "\"]"@;
            text::lemma_lined_one(one);
            assert("[kernel]\ncmdline = [\"root=UUID="@ =~= "[kernel]"@ + seq!['\n']
                + "cmdline = [\"root=UUID="@);
            assert("\"]\n\n"@ =~= "\"]"@ + seq!['\n'] + seq!['\n']);
            assert(kernel_table(root_uuid, luks_uuid) =~= "[kernel]"@ + seq!['\n'] + (one + seq![
                '\n',
            ]) + (""@ + seq!['\n']));
        },
    }
}

proof fn lemma_package_lines(packages: Seq<Text>)
    ensures
        ({
            let row = |name: Text| "  \""@ + name + "\","@;
            let lines = if packages.len() == 0 {
                seq!["repo = []"@]
            } else {
                seq!["repo = ["@] + packages.map_values(row) + seq!["]"@]
            };
            package_table(packages) == text::lined(seq!["[packages]"@]) + text::lined(lines)
                + text::lined(seq![""@])
        }),
{
    let row = |name: Text| "  \""@ + name + "\","@;
    reveal_strlit("[packages]");
    reveal_strlit("");
    text::lemma_lined_one("[packages]"@);
    text::lemma_lined_one(""@);
    if packages.len() == 0 {
        reveal_strlit("[packages]\nrepo = []\n\n");
        reveal_strlit("repo = []");
        text::lemma_lined_one("repo = []"@);
        assert(package_table(packages) =~= "[packages]"@ + seq!['\n'] + ("repo = []"@ + seq!['\n'])
            + (""@ + seq!['\n']));
    } else {
        reveal_strlit("[packages]\nrepo = [\n");
        reveal_strlit("repo = [");
        reveal_strlit("]\n\n");
        reveal_strlit("]");
        let open = seq!["repo = ["@];
        let rows = packages.map_values(row);
        let close = seq!["]"@];
        lemma_rows_are_lines(packages);
        text::lemma_lined_one("repo = ["@);
        text::lemma_lined_one("]"@);
        text::lemma_lined_apart(open, rows);
        text::lemma_lined_apart(open + rows, close);
        assert("[packages]\nrepo = [\n"@ =~= "[packages]"@ + seq!['\n'] + "repo = ["@ + seq!['\n']);
        assert("]\n\n"@ =~= "]"@ + seq!['\n'] + seq!['\n']);
        assert(package_table(packages) =~= "[packages]"@ + seq!['\n'] + ("repo = ["@ + seq!['\n']
            + text::lined(rows) + ("]"@ + seq!['\n'])) + (""@ + seq!['\n']));
    }
}

proof fn lemma_system_lines(keymap: Text, locale: Text)
    ensures
        ({
            let line = if locale == "C"@ || locale == "C.UTF-8"@ {
                "locale = { lang = \""@ + locale + "\" }"@
            } else {
                "locale = { lang = \""@ + locale + "\", generate = [\""@ + locale + " "@
                    + text::after_last(locale, '.') + "\"] }"@
            };
            system_table(keymap, locale) == text::lined(
                seq!["[system]"@, "keymap = \""@ + keymap + "\""@, line],
            )
        }),
{
    let line = if locale == "C"@ || locale == "C.UTF-8"@ {
        "locale = { lang = \""@ + locale + "\" }"@
    } else {
        "locale = { lang = \""@ + locale + "\", generate = [\""@ + locale + " "@ + text::after_last(
            locale,
            '.',
        ) + "\"] }"@
    };
    reveal_strlit("[system]\nkeymap = \"");
    reveal_strlit("[system]");
    reveal_strlit("keymap = \"");
    reveal_strlit("\"\n");
    reveal_strlit("\"");
    reveal_strlit("\" }\n");
    reveal_strlit("\" }");
    reveal_strlit("\"] }\n");
    reveal_strlit("\"] }");
    let two = "keymap = \""@ + keymap + "\""@;
    text::lemma_lined_three("[system]"@, two, line);
    assert(locale_line(locale) =~= line + seq!['\n']);
    assert("[system]\nkeymap = \""@ =~= "[system]"@ + seq!['\n'] + "keymap = \""@);
    assert("\"\n"@ =~= "\""@ + seq!['\n']);
    assert(system_table(keymap, locale) =~= "[system]"@ + seq!['\n'] + two + seq!['\n'] + (line
        + seq!['\n']));
}

/// Every chosen module has its row in the list, which ends at the first line
/// with a closing bracket: the list has a row for the profile and one for each
/// module, the profile's first and the others in their order, and nothing else.
pub proof fn lemma_every_module_is_named(a: AnswersView)
    requires
        !a.profile.contains('\n'),
        forall|k: int| 0 <= k < a.modules.len() ==> !(#[trigger] a.modules[k]).contains('\n'),
    ensures
        exists|list: Text, rest: Text|
            {
                &&& configuration(a) == #[trigger] (HEADER@ + "include = [\n"@ + list + "]\n"@
                    + rest)
                &&& text::text_lines(list).len() == 1 + a.modules.len()
                &&& text::text_lines(list)[0] == "  \""@ + a.profile + "\","@
                &&& forall|k: int|
                    0 <= k < a.modules.len() ==> #[trigger] text::text_lines(list)[k + 1] == "  \""@
                        + a.modules[k] + "\","@
            },
{
    let row = |name: Text| "  \""@ + name + "\","@;
    let lines = seq![row(a.profile)] + a.modules.map_values(row);
    let list = text::lined(lines);
    reveal_strlit("  \"");
    reveal_strlit("\",");
    assert forall|i: int| 0 <= i < lines.len() implies text::is_line(#[trigger] lines[i]) by {
        let name = if i == 0 {
            a.profile
        } else {
            a.modules[i - 1]
        };
        let s = row(name);
        assert(lines[i] == s);
        assert(!name.contains('\n'));
        assert forall|j: int| 0 <= j < s.len() implies s[j] != '\n' by {
            if 3 <= j < 3 + name.len() {
                assert(s[j] == name[j - 3]);
                assert(name.contains(name[j - 3]));
            }
        }
    }
    text::lemma_lines(lines);
    lemma_head_lines(a.profile);
    lemma_rows_are_lines(a.modules);
    text::lemma_lined_apart(seq![row(a.profile)], a.modules.map_values(row));
    reveal_strlit("]\n\n");
    reveal_strlit("]\n");
    let rest = seq!['\n'] + kernel_table(a.root_uuid, a.luks_uuid) + package_table(
        image_packages(a),
    ) + system_table(a.keymap, a.locale);
    assert("]\n\n"@ =~= "]\n"@ + seq!['\n']);
    assert(configuration(a) =~= HEADER@ + "include = [\n"@ + list + "]\n"@ + rest);
    assert forall|k: int| 0 <= k < a.modules.len() implies #[trigger] text::text_lines(list)[k + 1]
        == "  \""@ + a.modules[k] + "\","@ by {
        assert(lines[k + 1] == row(a.modules[k]));
    }
}

} // verus!
