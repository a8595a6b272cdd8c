use terracotta_installer::block::Disk;
use terracotta_installer::config::{locale_field, system_toml};
use terracotta_installer::interview::Answers;

fn answers() -> Answers {
    Answers {
        disk: Disk {
            path: "/dev/sda".into(),
            bytes: 500 << 30,
            model: "test".into(),
            transport: "sata".into(),
            removable: false,
            busy: None,
        },
        hostname: "kiln".into(),
        timezone: "Europe/Berlin".into(),
        locale: "en_US.UTF-8".into(),
        keymap: "us".into(),
        profile: "@kiln/profiles/workstation".into(),
        modules: vec!["@kiln/gpu/amd".into()],
        packages: vec!["neovim".into()],
        username: "ada".into(),
        user_password: "secret".into(),
        root_password: String::new(),
        encrypt: false,
        passphrase: String::new(),
        root_uuid: "1234-abcd".into(),
        luks_uuid: None,
    }
}

fn encrypted_answers() -> Answers {
    let mut a = answers();
    a.encrypt = true;
    a.passphrase = "correct horse battery staple".into();
    a.luks_uuid = Some("deadbeef-dead-beef-dead-beefdeadbeef".into());
    a
}

#[test]
fn include_precedes_every_table_header() {
    let toml = system_toml(&answers());
    let list = toml.find("include").expect("an include list");
    let first_table = toml.find("\n[").expect("at least one table");
    assert!(
        list < first_table,
        "`include` after a table header becomes `packages.include`"
    );
}

#[test]
fn the_root_karg_is_written_down() {
    let toml = system_toml(&answers());
    assert!(toml.contains("root=UUID=1234-abcd"), "{toml}");
}

#[test]
fn no_account_reaches_the_configuration() {
    let toml = system_toml(&answers());
    for forbidden in ["ada", "secret", "[[user]]", "password"] {
        assert!(
            !toml.contains(forbidden),
            "`{forbidden}` is in the generated config; accounts are not \
             image content\n{toml}"
        );
    }
}

#[test]
fn an_encrypted_root_gets_luks_kargs_instead_of_a_uuid() {
    let toml = system_toml(&encrypted_answers());
    assert!(
        toml.contains("rd.luks.uuid=deadbeef-dead-beef-dead-beefdeadbeef"),
        "{toml}"
    );
    assert!(
        toml.contains("rd.luks.name=deadbeef-dead-beef-dead-beefdeadbeef=root"),
        "{toml}"
    );
    assert!(toml.contains("root=/dev/mapper/root"), "{toml}");
    assert!(toml.contains("dracut_modules = [\"crypt\"]"), "{toml}");
    assert!(!toml.contains("root=UUID=1234-abcd"), "{toml}");
}

#[test]
fn an_encrypted_image_gets_cryptsetup() {
    let toml = system_toml(&encrypted_answers());
    assert!(toml.contains("\"cryptsetup\""), "{toml}");
    // An unencrypted one does not carry a package it has no use for.
    assert!(!system_toml(&answers()).contains("cryptsetup"));
}

#[test]
fn no_passphrase_reaches_the_configuration() {
    let toml = system_toml(&encrypted_answers());
    assert!(
        !toml.contains("correct horse battery staple"),
        "the passphrase is in the generated config; it is piped to \
         `cryptsetup` and nowhere else\n{toml}"
    );
}

#[test]
fn no_packages_is_a_bare_empty_list() {
    let mut bare = answers();
    bare.packages.clear();
    let toml = system_toml(&bare);
    assert!(toml.contains("repo = []"), "{toml}");
}

#[test]
fn c_utf8_needs_no_generate() {
    assert_eq!(locale_field("C.UTF-8"), "locale = { lang = \"C.UTF-8\" }\n");
    let de = locale_field("de_DE.UTF-8");
    assert!(de.contains("generate = [\"de_DE.UTF-8 UTF-8\"]"), "{de}");
}

#[test]
fn the_system_table_replaces_the_old_file_and_script() {
    let toml = system_toml(&answers());
    assert!(toml.contains("[system]"), "{toml}");
    assert!(toml.contains("keymap = \"us\""), "{toml}");
    assert!(
        toml.contains("generate = [\"en_US.UTF-8 UTF-8\"]"),
        "{toml}"
    );
    for gone in ["[[file]]", "[[script]]", "locale-gen", "/etc/locale.conf"] {
        assert!(
            !toml.contains(gone),
            "`{gone}` should no longer appear:\n{toml}"
        );
    }
}

#[test]
fn the_whole_file() {
    let mut a = answers();
    a.packages = vec!["neovim".into(), "git".into(), "neovim".into()];
    assert_eq!(
        system_toml(&a),
        "# Written by terracotta-installer.\nkiln = 1\n\n\
         include = [\n  \"@kiln/profiles/workstation\",\n  \"@kiln/gpu/amd\",\n]\n\n\
         [kernel]\ncmdline = [\"root=UUID=1234-abcd\"]\n\n\
         [packages]\nrepo = [\n  \"git\",\n  \"neovim\",\n]\n\n\
         [system]\nkeymap = \"us\"\n\
         locale = { lang = \"en_US.UTF-8\", generate = [\"en_US.UTF-8 UTF-8\"] }\n"
    );
}

#[test]
fn the_whole_encrypted_file() {
    let mut a = encrypted_answers();
    a.packages.clear();
    a.modules.clear();
    a.luks_uuid = Some("u".into());
    a.locale = "C".into();
    assert_eq!(
        system_toml(&a),
        "# Written by terracotta-installer.\nkiln = 1\n\n\
         include = [\n  \"@kiln/profiles/workstation\",\n]\n\n\
         [kernel]\ncmdline = [\"rd.luks.uuid=u\", \"rd.luks.name=u=root\", \
         \"root=/dev/mapper/root\"]\ndracut_modules = [\"crypt\"]\n\n\
         [packages]\nrepo = [\n  \"cryptsetup\",\n]\n\n\
         [system]\nkeymap = \"us\"\nlocale = { lang = \"C\" }\n"
    );
}

#[test]
fn a_locale_without_a_suffix_names_itself() {
    assert_eq!(
        locale_field("POSIX"),
        "locale = { lang = \"POSIX\", generate = [\"POSIX POSIX\"] }\n"
    );
}

/// Accounts and the rest of what is not image content change nothing.
#[test]
fn other_answers_change_nothing() {
    let mut b = answers();
    b.username = "someone".into();
    b.user_password = "hunter22".into();
    b.root_password = "hunter23".into();
    b.hostname = "other".into();
    b.timezone = "UTC".into();
    assert_eq!(system_toml(&answers()), system_toml(&b));
    let mut c = encrypted_answers();
    c.root_uuid = "something else".into();
    assert_eq!(system_toml(&encrypted_answers()), system_toml(&c));
}
