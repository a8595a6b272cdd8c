use terracotta_installer::keys::Key;
use terracotta_installer::rules::Check;
use terracotta_installer::tui::{Opt, Page, Ui};
use terracotta_installer::widgets::{sift, Field, Multiselect, Reply, Rows, Screen, Secret, Select};

const UI: Ui = Ui { cols: 80, rows: 24 };

fn page() -> Page {
    Page::new((1, 14), "Question")
}

fn zones() -> Vec<Opt> {
    vec![
        Opt::new("UTC", ""),
        Opt::new("Europe/Berlin", ""),
        Opt::new("Europe/Paris", ""),
        Opt::new("Ärzte", ""),
    ]
}

fn typed(s: &mut Select, text: &str) {
    for c in text.chars() {
        assert!(s.press(Key::Char(c)).is_none());
    }
}

#[test]
fn typing_filters_without_regard_to_case() {
    let mut s = Select::new(zones());
    typed(&mut s, "eUrOpE");
    assert_eq!(s.rows().shown, vec![1, 2]);
    assert_eq!(s.press(Key::Down), None);
    assert_eq!(s.press(Key::Enter), Some(2));
    typed(&mut s, "zz");
    assert_eq!(s.press(Key::Enter), None);
    let lines = s.draw(&UI, &page());
    assert!(lines.iter().any(|l| l.contains("  nothing matches `eUrOpEzz`")));
    assert!(lines.iter().any(|l| l.contains("/eUrOpEzz")));
    s.press(Key::Backspace);
    s.press(Key::Backspace);
    assert_eq!(s.filter, "eUrOpE");
    assert_eq!(s.press(Key::Enter), Some(1));
    let mut s = Select::new(zones());
    typed(&mut s, "är");
    assert_eq!(s.press(Key::Enter), Some(3));
}

#[test]
fn a_space_is_part_of_the_filter() {
    let mut s = Select::new(vec![Opt::new("ab", ""), Opt::new("a b", "")]);
    s.press(Key::Char('a'));
    s.press(Key::Space);
    assert_eq!(s.press(Key::Enter), Some(1));
}

#[test]
fn the_cursor_stays_on_the_list() {
    let mut s = Select::new(zones());
    s.press(Key::Up);
    assert_eq!(s.press(Key::Enter), Some(0));
    for _ in 0..10 {
        s.press(Key::Down);
    }
    assert_eq!(s.press(Key::Enter), Some(3));
    s.press(Key::Up);
    assert_eq!(s.press(Key::Enter), Some(2));
    s.press(Key::Resize);
    s.press(Key::ClearLine);
    assert_eq!(s.press(Key::Enter), Some(2));
}

#[test]
fn disabled_rows_and_headings_are_skipped() {
    let mut s = Select::new(vec![
        Opt::heading("group"),
        Opt::new("a", "").disabled(),
        Opt::new("b", ""),
        Opt::heading("empty"),
    ]);
    assert_eq!(s.rows().shown, vec![0, 1, 2]);
    assert_eq!(s.rows().choices, vec![2]);
    assert_eq!(s.press(Key::Enter), Some(2));
    let mut none = Select::new(vec![Opt::new("a", "").disabled()]);
    assert_eq!(none.press(Key::Down), None);
    assert_eq!(none.press(Key::Enter), None);
}

/// A screen opens on the answer that was given before, and Enter keeps it.
#[test]
fn a_screen_opens_on_what_is_checked() {
    let mut s = Select::new(vec![
        Opt::heading("group"),
        Opt::new("a", ""),
        Opt::new("b", "").checked(),
        Opt::new("c", ""),
    ]);
    assert_eq!(s.press(Key::Enter), Some(2));
    let mut s = Select::new(vec![Opt::new("a", ""), Opt::new("b", "").disabled().checked()]);
    assert_eq!(s.press(Key::Enter), Some(0));
}

#[test]
fn rows_from_lowercase_labels() {
    let options = vec![
        Opt::heading("one"),
        Opt::new("A", ""),
        Opt::heading("two"),
        Opt::new("B", "").disabled(),
    ];
    let labels: Vec<String> = ["one", "a", "two", "b"].iter().map(|s| s.to_string()).collect();
    let r = sift(&options, "", &labels, "");
    assert_eq!((r.shown, r.choices), (vec![0, 1, 2, 3], vec![1]));
    let r = sift(&options, "B", &labels, "b");
    assert_eq!((r.shown, r.choices), (vec![0, 2, 3], vec![]));
    let r = sift(&options, "A", &labels, "a");
    assert_eq!((r.shown, r.choices), (vec![0, 1], vec![1]));
    let r = sift(&options, "x", &labels, "x");
    assert_eq!((r.shown, r.choices), (vec![], vec![]));
}

#[test]
fn given_rows_decide() {
    let mut s = Select::new(zones());
    let rows = Rows { shown: vec![3, 1], choices: vec![3, 1] };
    assert_eq!(s.press_rows(Key::Down, &rows), None);
    assert_eq!(s.press_rows(Key::Enter, &rows), Some(1));
    let lines = s.draw_rows(&UI, &page(), &rows);
    assert_eq!(lines[6], "    Ärzte");
    assert_eq!(lines[7], "  \x1b[36m▸\x1b[0m \x1b[1mEurope/Berlin\x1b[0m");
}

#[test]
fn the_window_follows_the_cursor() {
    let many: Vec<Opt> = (0..100).map(|i| Opt::new(&format!("row{i}"), "")).collect();
    let mut s = Select::new(many);
    let lines = s.draw(&UI, &page());
    // Six lines of header, and three kept free at the bottom.
    let room = 24 - 6 - 3;
    assert_eq!(lines[6], "  \x1b[36m▸\x1b[0m \x1b[1mrow0\x1b[0m");
    assert_eq!(lines[6 + room], format!("  \x1b[2m  … {} more\x1b[0m", 100 - room));
    assert_eq!(lines.len(), 23);
    for _ in 0..room {
        s.press(Key::Down);
    }
    let lines = s.draw(&UI, &page());
    assert_eq!(s.top, 1);
    assert_eq!(lines[6 + room - 1], format!("  \x1b[36m▸\x1b[0m \x1b[1mrow{room}\x1b[0m"));
    for _ in 0..200 {
        s.press(Key::Down);
    }
    s.draw(&UI, &page());
    assert_eq!(s.top, 100 - room);
    for _ in 0..200 {
        s.press(Key::Up);
    }
    s.draw(&UI, &page());
    assert_eq!(s.top, 0);
}

fn modules() -> Vec<Opt> {
    vec![
        Opt::heading("gpu"),
        Opt::new("amd", "open"),
        Opt::new("intel", "").checked(),
        Opt::heading("audio"),
        Opt::new("pipewire", ""),
    ]
}

#[test]
fn any_number_of_rows() {
    let mut m = Multiselect::new(modules());
    assert_eq!(m.press(Key::Enter), Some(vec![2]));
    assert_eq!(m.press(Key::Space), None);
    m.press(Key::Down);
    m.press(Key::Space);
    for _ in 0..9 {
        m.press(Key::Down);
    }
    m.press(Key::Space);
    assert_eq!(m.press(Key::Enter), Some(vec![1, 4]));
    m.press(Key::Space);
    m.press(Key::Space);
    assert_eq!(m.press(Key::Enter), Some(vec![1, 4]));
    m.press(Key::Char('x'));
    assert_eq!(m.press(Key::Enter), Some(vec![1, 4]));
    for _ in 0..9 {
        m.press(Key::Up);
    }
    m.press(Key::Space);
    assert_eq!(m.press(Key::Enter), Some(vec![4]));
}

#[test]
fn marks_are_drawn() {
    let mut m = Multiselect::new(modules());
    let lines = m.draw(&UI, &page());
    assert_eq!(lines[6], "  \x1b[2mgpu\x1b[0m");
    assert_eq!(
        lines[7],
        "  \x1b[36m▸\x1b[0m \x1b[2m[ ]\x1b[0m \x1b[1mamd\x1b[0m       \x1b[2mopen\x1b[0m"
    );
    assert_eq!(lines[8], "    \x1b[32m[x]\x1b[0m intel");
    let small = Ui { cols: 80, rows: 6 };
    let lines = m.draw(&small, &page());
    assert!(lines.iter().any(|l| l.contains("  … 2 more")));
}

#[test]
fn a_line_of_text() {
    let mut f = Field::new("hostname", "a", false, Check::Hostname);
    f.press(Key::Space);
    assert_eq!(f.press(Key::Enter), None);
    assert_eq!(f.error.as_deref(), Some("letters, digits and hyphens only"));
    let lines = f.draw(&UI, &page());
    assert_eq!(lines[6], "  hostname");
    assert_eq!(lines[7], "  \x1b[36m▸\x1b[0m a \x1b[36m▏\x1b[0m");
    assert_eq!(lines[9], "  \x1b[31mletters, digits and hyphens only\x1b[0m");
    f.press(Key::Backspace);
    assert!(f.error.is_none());
    f.press(Key::Char('b'));
    f.press(Key::Up);
    assert_eq!(f.press(Key::Enter).as_deref(), Some("ab"));
    f.press(Key::ClearLine);
    assert_eq!(f.value, "");
    f.press(Key::Backspace);
    assert_eq!(f.value, "");
}

fn enter(s: &mut Secret, text: &str) -> Option<String> {
    for c in text.chars() {
        s.press(Key::Char(c));
    }
    s.press(Key::Enter)
}

#[test]
fn a_secret_is_entered_twice() {
    let mut s = Secret::new("password", false);
    assert_eq!(s.press(Key::Enter), None);
    assert_eq!(enter(&mut s, "12345"), None);
    let lines = s.draw(&UI, &page());
    assert_eq!(lines[7], "  \x1b[36m▸\x1b[0m •••••\x1b[36m▏\x1b[0m");
    assert_eq!(lines[9], "  \x1b[31mat least six characters\x1b[0m");
    assert_eq!(enter(&mut s, "6"), None);
    assert_eq!(s.draw(&UI, &page())[6], "  repeat it");
    assert_eq!(enter(&mut s, "654321"), None);
    let lines = s.draw(&UI, &page());
    assert_eq!(lines[5], "  \x1b[31mthey do not match — try again\x1b[0m");
    assert_eq!(s.press(Key::Char('x')), None);
    assert_eq!(s.press(Key::Enter), None);
    assert_eq!(s.draw(&UI, &page())[6], "  password");
    assert_eq!(enter(&mut s, "123456"), None);
    assert_eq!(enter(&mut s, "123456").as_deref(), Some("123456"));
}

#[test]
fn an_empty_secret_only_where_it_may_be() {
    let mut s = Secret::new("root password", true);
    assert_eq!(s.press(Key::Enter).as_deref(), Some(""));
    let mut s = Secret::new("password", false);
    assert_eq!(s.press(Key::Enter), None);
}

fn drawn(mut s: Screen) -> Vec<String> {
    s.draw(&UI)
}

#[test]
fn screens_reply() {
    let mut s = Ui::select(page(), zones());
    s.press(Key::Down);
    assert!(matches!(s.press(Key::Enter), Some(Reply::Row(1))));
    let mut s = Ui::multiselect(page(), modules());
    assert!(matches!(s.press(Key::Enter), Some(Reply::Rows(v)) if v == vec![2]));
    let mut s = Ui::text(page(), "label", "x", Check::Anything);
    assert!(matches!(s.press(Key::Enter), Some(Reply::Line(t)) if t == "x"));
    let mut s = Ui::secret(page(), "label", true);
    assert!(matches!(s.press(Key::Enter), Some(Reply::Line(t)) if t.is_empty()));
    let mut s = Ui::pause(page());
    assert!(s.press(Key::Char('x')).is_none());
    assert!(matches!(s.press(Key::Enter), Some(Reply::Done)));
    let mut s = Ui::review(page(), Vec::new());
    assert!(s.press(Key::Space).is_none());
    assert!(matches!(s.press(Key::Enter), Some(Reply::Done)));
}

/// Erasing a disk means typing its name.
#[test]
fn only_the_word_confirms() {
    let mut s = Ui::typed_confirm(page(), "sda");
    assert!(s.press(Key::Enter).is_none());
    for c in "sdb".chars() {
        s.press(Key::Char(c));
    }
    assert!(s.press(Key::Enter).is_none());
    let lines = s.draw(&UI);
    assert_eq!(lines[6], "  type \x1b[1msda\x1b[0m to confirm");
    assert_eq!(lines[9], "  \x1b[31mthat is not `sda`\x1b[0m");
    s.press(Key::Backspace);
    s.press(Key::Char('a'));
    assert!(matches!(s.press(Key::Enter), Some(Reply::Line(t)) if t == "sda"));
}

#[test]
fn messages_and_their_legends() {
    assert_eq!(
        drawn(Ui::pause(page())).last().unwrap(),
        "  \x1b[2menter continue · esc back · ctrl-c quit\x1b[0m"
    );
    assert_eq!(drawn(Ui::pause_with(page(), "bye")).last().unwrap(), "  \x1b[2mbye\x1b[0m");
    assert_eq!(
        drawn(Ui::pause_with(page().help("own"), "bye")).last().unwrap(),
        "  \x1b[2mown\x1b[0m"
    );
}

#[test]
fn the_review_lines_up() {
    let rows = vec![("disk".into(), "/dev/sda".into()), ("hostname".into(), "kiln".into())];
    let lines = drawn(Ui::review(page(), rows));
    assert_eq!(lines[6], "  \x1b[2mdisk    \x1b[0m  /dev/sda");
    assert_eq!(lines[7], "  \x1b[2mhostname\x1b[0m  kiln");
    assert_eq!(
        lines[9],
        "  \x1b[31m▸\x1b[0m \x1b[1menter\x1b[0m begins the install. Nothing has been written yet."
    );
    assert_eq!(lines[22], "  \x1b[2menter install · esc back · ctrl-c quit\x1b[0m");
}

/// A heading cannot be selected, and a disabled row cannot be chosen.
#[test]
fn nothing_to_choose_is_nothing_chosen() {
    let rows = || vec![Opt::heading("desktop"), Opt::new("gone", "").disabled()];
    let mut m = Multiselect::new(rows());
    assert_eq!(m.press(Key::Space), None);
    m.press(Key::Down);
    m.press(Key::Space);
    assert_eq!(m.press(Key::Enter), Some(vec![]));
    let lines = m.draw(&UI, &page());
    assert_eq!(lines[7], "    \x1b[2m[ ]\x1b[0m gone");
    let mut only = Multiselect::new(vec![Opt::new("gone", "").disabled()]);
    assert_eq!(only.draw(&UI, &page())[6], "    \x1b[2m[ ]\x1b[0m gone");
    let mut head = Multiselect::new(vec![Opt::heading("desktop").checked()]);
    head.press(Key::Space);
    assert_eq!(head.press(Key::Enter), Some(vec![]));
    let mut empty = Multiselect::new(vec![]);
    assert_eq!(empty.press(Key::Space), None);
    assert_eq!(empty.press(Key::Enter), Some(vec![]));
    let mut s = Ui::multiselect(page(), rows());
    assert!(s.press(Key::Space).is_none());
    assert!(matches!(s.press(Key::Enter), Some(Reply::Rows(v)) if v.is_empty()));
}

/// A caller may judge a value by itself.
#[test]
fn a_verdict_from_outside() {
    let mut f = Field::new("port", "12", false, Check::Anything);
    assert_eq!(f.judge(Key::Enter, Some("too small".into())), None);
    assert_eq!(f.error.as_deref(), Some("too small"));
    assert_eq!(f.judge(Key::Char('3'), Some("too small".into())), None);
    assert!(f.error.is_none());
    assert_eq!(f.judge(Key::Enter, None).as_deref(), Some("123"));
}
