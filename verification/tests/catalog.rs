use terracotta_installer::catalog::{
    defaults, extras, extras_beyond, keymaps, locales, module_file, offer_zones, prefer, profiles, timezones,
    wanted_files, zones_of, Area, City, Entry, Library, EXTRAS, PROFILES,
};
use terracotta_installer::run::Failed;

fn strings(list: &[&str]) -> Vec<String> {
    list.iter().map(|s| s.to_string()).collect()
}

/// A library with every module of the catalog but those left out.
fn library_without(out: &[&str]) -> Library {
    let root = "/usr/share/kiln/modules";
    let gone: Vec<String> = out.iter().map(|m| module_file(root, m)).collect();
    Library {
        root: root.into(),
        files: wanted_files(root).into_iter().filter(|f| !gone.contains(f)).collect(),
    }
}

#[test]
fn module_references_map_to_files() {
    let p = module_file("/usr/share/kiln/modules", "@kiln/gpu/nvidia-open");
    assert_eq!(p, "/usr/share/kiln/modules/gpu/nvidia-open.toml");
}

#[test]
fn every_offered_module_is_a_kiln_reference() {
    for e in extras(&library_without(&[])) {
        if let Entry::Module(m) = e {
            assert!(m.module.starts_with("@kiln/"), "{}", m.module);
        }
    }
    for (module, _, _, _) in EXTRAS {
        if !module.is_empty() {
            assert!(module.starts_with("@kiln/"), "{module}");
        }
    }
    for (module, _, _) in PROFILES {
        assert!(module.starts_with("@kiln/profiles/"), "{module}");
    }
}

#[test]
fn an_empty_library_offers_nothing() {
    let none = Library {
        root: "/nonexistent-module-root".into(),
        files: Vec::new(),
    };
    assert!(profiles(&none).is_empty());
    assert!(extras(&none).is_empty());
}

/// A heading whose whole namespace filtered away would render as a label with
/// no rows under it.
#[test]
fn headings_do_not_outlive_their_groups() {
    let gpu: Vec<&str> = EXTRAS.iter().map(|r| r.0).filter(|m| m.starts_with("@kiln/gpu/")).collect();
    assert!(!gpu.is_empty());
    let kept = extras(&library_without(&gpu));
    for (i, e) in kept.iter().enumerate() {
        if matches!(e, Entry::Group(_)) {
            assert!(
                matches!(kept.get(i + 1), Some(Entry::Module(_))),
                "a group heading with nothing under it"
            );
        }
    }
    let all = extras(&library_without(&[]));
    assert_eq!(all.len(), EXTRAS.len());
    assert_eq!(kept.len(), all.len() - gpu.len() - 1);
}

#[test]
fn prefer_moves_without_duplicating() {
    let mut v: Vec<String> = ["a", "b", "us"].iter().map(|s| s.to_string()).collect();
    prefer(&mut v, "us");
    assert_eq!(v, vec!["us", "a", "b"]);
    prefer(&mut v, "missing");
    assert_eq!(v, vec!["us", "a", "b"]);
}

#[test]
fn a_prefix_is_taken_off_as_often_as_it_is_there() {
    assert_eq!(module_file("/m", "@kiln/@kiln/a/b"), "/m/a/b.toml");
    assert_eq!(module_file("/m/", "a"), "/m/a.toml");
    assert_eq!(module_file("/m", "@kiln//etc/x"), "/etc/x.toml");
}

#[test]
fn a_missing_profile_is_not_offered() {
    let kept = profiles(&library_without(&["@kiln/profiles/server"]));
    let labels: Vec<&str> = kept.iter().map(|p| p.label).collect();
    assert_eq!(labels, vec!["workstation", "minimal"]);
    assert!(kept[0].note.starts_with("desktop machine"));
}

#[test]
fn defaults_are_the_pre_checked_modules() {
    let all = extras(&library_without(&[]));
    let checked: Vec<String> =
        EXTRAS.iter().filter(|r| r.3).map(|r| r.0.to_string()).collect();
    assert!(!checked.is_empty());
    assert_eq!(defaults(&all), checked);
    let first = checked[0].clone();
    let fewer = extras(&library_without(&[first.as_str()]));
    assert_eq!(defaults(&fewer), checked[1..].to_vec());
}

#[test]
fn locales_come_from_the_supported_list() {
    let text = "aa_DJ.UTF-8 UTF-8\naa_DJ ISO-8859-1\n\nen_US.UTF-8 UTF-8\nde_DE.UTF-8 UTF-8\nen_US.UTF-8 UTF-8\n";
    assert_eq!(
        locales(&Some(text.into())),
        strings(&["en_US.UTF-8", "aa_DJ.UTF-8", "de_DE.UTF-8"])
    );
    let usual = strings(&["en_US.UTF-8", "de_DE.UTF-8", "en_GB.UTF-8", "fr_FR.UTF-8"]);
    assert_eq!(locales(&None), usual);
    assert_eq!(locales(&Some("C ISO-8859-1\n".into())), usual);
}

#[test]
fn keymaps_come_from_systemd() {
    assert_eq!(
        keymaps(&Ok("  uk\nus\n\nde\n".into())),
        strings(&["us", "de", "uk"])
    );
    let failed = Failed { what: "localectl".into(), code: None, signal: false, tail: vec![] };
    assert_eq!(
        keymaps(&Err(failed)),
        strings(&["us", "colemak", "de", "dvorak", "es", "fr", "it", "uk"])
    );
}

fn area(name: &str, cities: Option<Vec<City>>) -> Area {
    Area { name: name.into(), cities }
}

fn city(name: &str, zones: Option<&[&str]>) -> City {
    City { name: name.into(), zones: zones.map(strings) }
}

#[test]
fn only_capitalised_directories_are_areas() {
    let tree = vec![
        area("zone.tab", None),
        area("backward", Some(vec![city("Nowhere", None)])),
        area("posix", Some(vec![city("Berlin", None)])),
        area("right", Some(vec![city("Berlin", None)])),
        area("SystemV", Some(vec![city("EST5", None)])),
        area("Etc", None),
        area("Europe", Some(vec![city("Paris", None), city("Berlin", None)])),
        area("America", Some(vec![city("Indiana", Some(&["Knox"])), city("New_York", None)])),
        area("Ägypten", Some(vec![city("Kairo", None)])),
        area("", Some(vec![city("Nowhere", None)])),
    ];
    assert_eq!(
        timezones(&Some(tree)),
        strings(&[
            "UTC",
            "America/Indiana/Knox",
            "America/New_York",
            "Europe/Berlin",
            "Europe/Paris",
            "Ägypten/Kairo",
        ])
    );
    assert_eq!(timezones(&None), strings(&["UTC"]));
    assert_eq!(timezones(&Some(Vec::new())), strings(&["UTC"]));
}

#[test]
fn zones_of_an_area_depend_on_its_capital() {
    let a = area("Europe", Some(vec![city("Paris", None)]));
    assert_eq!(zones_of(&a, true), strings(&["Europe/Paris"]));
    assert_eq!(zones_of(&a, false), Vec::<String>::new());
    assert_eq!(offer_zones(strings(&["B/b", "UTC", "A/a"])), strings(&["UTC", "A/a", "B/b"]));
}

/// Anything the profile already covers is left out.
#[test]
fn what_a_profile_covers_is_left_out() {
    let names = |list: &[Entry]| -> Vec<&'static str> {
        list.iter()
            .map(|e| match e {
                Entry::Group(g) => *g,
                Entry::Module(m) => m.module,
            })
            .collect()
    };
    let all = extras(&library_without(&[]));
    let sudo = "@kiln/security/wheel-sudo";
    assert_eq!(names(&extras_beyond(&all, "@kiln/profiles/minimal")), names(&all));
    for profile in ["@kiln/profiles/workstation", "@kiln/profiles/server"] {
        let fewer: Vec<&str> = names(&all).into_iter().filter(|n| *n != sudo).collect();
        assert_eq!(names(&extras_beyond(&all, profile)), fewer);
    }
    // And so is a heading that has nothing under it any more.
    let alone = extras(&library_without(&["@kiln/security/apparmor"]));
    let left = extras_beyond(&alone, "@kiln/profiles/server");
    assert!(!names(&left).contains(&"security"));
}
