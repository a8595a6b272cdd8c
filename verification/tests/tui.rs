use terracotta_installer::tui;
use terracotta_installer::tui::{
    pad, Opt, Page, Progress, Ui, DIM, NO_ABORT, PAD, RESET, TAIL,
};

const UI: Ui = Ui { cols: 80, rows: 24 };

#[test]
fn a_terminal_is_needed() {
    let e = Ui::open(false, Ok((80, 24))).err().unwrap();
    assert_eq!(e, "terracotta-installer needs a terminal; it is interactive by design");
    let e = Ui::open(true, Err("no tty".into())).err().unwrap();
    assert_eq!(e, "cannot size the terminal: no tty");
    for size in [(59, 24), (80, 17)] {
        let e = Ui::open(true, Ok(size)).err().unwrap();
        assert_eq!(
            e,
            format!(
                "the terminal is {}x{}; terracotta-installer needs at least 60x18",
                size.0, size.1
            )
        );
    }
    let mut ui = Ui::open(true, Ok((60, 18))).ok().unwrap();
    assert_eq!((ui.cols, ui.rows), (60, 18));
    ui.resized(None);
    assert_eq!((ui.cols, ui.rows), (60, 18));
    ui.resized(Some((100, 30)));
    assert_eq!((ui.cols, ui.rows), (100, 30));
}

#[test]
fn the_header_says_where_we_are() {
    let page = Page::new((3, 14), "Title").note("plain").note("\x1b[31mred\x1b[0m");
    let lines = UI.header(&page);
    assert_eq!(lines.len(), 8);
    assert_eq!(lines[0], "");
    let right = "step 3 of 14";
    let gap = " ".repeat(80 - 4 - "terracotta install".len() - right.len());
    assert_eq!(
        lines[1],
        format!("  \x1b[1mterracotta install\x1b[0m{gap}\x1b[2m{right}\x1b[0m")
    );
    assert_eq!(lines[2], format!("  \x1b[2m{}\x1b[0m", "─".repeat(76)));
    assert_eq!(lines[4], "  \x1b[1mTitle\x1b[0m");
    assert_eq!(lines[5], "  \x1b[2mplain\x1b[0m");
    assert_eq!(lines[6], "  \x1b[31mred\x1b[0m");
    assert_eq!(lines[7], "");
    let narrow = Ui { cols: 3, rows: 24 };
    let lines = narrow.header(&Page::new((0, 0), "T"));
    assert_eq!(lines[1], "  \x1b[1mterracotta install\x1b[0m \x1b[2m\x1b[0m");
    assert_eq!(lines[2], "  \x1b[2m\x1b[0m");
}

#[test]
fn the_footer_is_pinned_to_the_bottom() {
    let mut lines = vec!["a".to_string()];
    UI.footer("help", &mut lines);
    assert_eq!(lines.len(), 23);
    assert_eq!(lines[22], format!("{PAD}{DIM}help{RESET}"));
    let mut many: Vec<String> = (0..30).map(|i| i.to_string()).collect();
    UI.footer("help", &mut many);
    assert_eq!(many.len(), 31);
}

#[test]
fn no_more_lines_are_painted_than_there_are_rows() {
    let ui = Ui { cols: 80, rows: 2 };
    let lines: Vec<String> = ["a", "b", "c"].iter().map(|s| s.to_string()).collect();
    assert_eq!(ui.paint(&lines), "a\r\nb\r\n");
    assert_eq!(ui.paint(&lines[..1]), "a\r\n");
    assert_eq!(ui.paint(&[]), "");
}

#[test]
fn rows_of_a_list() {
    let plain = Opt::new("ab", "note");
    assert_eq!(UI.row(&plain, false, 4), "    ab    \x1b[2mnote\x1b[0m");
    assert_eq!(
        UI.row(&plain, true, 4),
        "  \x1b[36m▸\x1b[0m \x1b[1mab\x1b[0m    \x1b[2mnote\x1b[0m"
    );
    assert_eq!(UI.row(&Opt::new("ab", ""), false, 4), "    ab");
    assert_eq!(
        UI.row(&Opt::new("ab", "").disabled(), true, 4),
        "  \x1b[36m▸\x1b[0m \x1b[2mab\x1b[0m"
    );
    assert_eq!(UI.row(&Opt::heading("group"), true, 4), "  \x1b[2mgroup\x1b[0m");
}

#[test]
fn options_are_built() {
    let o = Opt::new("label", "note");
    assert!(o.enabled && !o.heading && !o.checked);
    assert!(!Opt::new("label", "note").disabled().enabled);
    assert!(Opt::new("label", "note").checked().checked);
    let h = Opt::heading("group");
    assert!(h.heading && !h.enabled && h.note.is_empty());
}

#[test]
fn notes_line_up_in_one_column() {
    assert_eq!(tui::column(&[Opt::new("ab", ""), Opt::heading("longer"), Opt::new("äöü", "")]), 3);
    assert_eq!(tui::column(&[]), 0);
    assert_eq!(pad("äöü", 5), 2);
    assert_eq!(pad("abcdef", 5), 0);
}

#[test]
fn the_scrollback_is_short() {
    let mut p = Progress::new(&["one", "two"]);
    assert_eq!(p.steps, vec!["one", "two"]);
    for i in 0..TAIL + 3 {
        p.say(i.to_string());
    }
    let tail: Vec<String> = p.tail.iter().cloned().collect();
    assert_eq!(tail, (3..TAIL + 3).map(|i| i.to_string()).collect::<Vec<_>>());
}

#[test]
fn the_install_screen() {
    let mut p = Progress::new(&["one", "two", "three"]);
    p.at = 1;
    p.detail = "doing".into();
    p.say("x".repeat(100));
    let lines = UI.progress(&p);
    assert_eq!(lines.len(), 23);
    assert_eq!(lines[4], "  \x1b[1mInstalling\x1b[0m");
    assert_eq!(lines[6], "  \x1b[32m✔\x1b[0m \x1b[2mone\x1b[0m");
    assert_eq!(lines[7], "  \x1b[36m▸\x1b[0m \x1b[1mtwo\x1b[0m  \x1b[2mdoing\x1b[0m");
    assert_eq!(lines[8], "    \x1b[2mthree\x1b[0m");
    assert_eq!(lines[10], format!("  \x1b[2m│ {}\x1b[0m", "x".repeat(74)));
    assert_eq!(lines[22], format!("  \x1b[2m{NO_ABORT}\x1b[0m"));
    p.failed = true;
    assert_eq!(
        UI.progress(&p)[7],
        "  \x1b[31m✘\x1b[0m \x1b[1mtwo\x1b[0m  \x1b[2mdoing\x1b[0m"
    );
}

/// Once the install starts there is no abort key, and the footer says so.
#[test]
fn the_install_offers_no_abort_key() {
    assert!(NO_ABORT.contains("no abort key"));
}

#[test]
fn a_short_screen_shows_the_last_line_of_the_tail() {
    let ui = Ui { cols: 80, rows: 10 };
    let mut p = Progress::new(&["one"]);
    p.say("first".into());
    p.say("last".into());
    let lines = ui.progress(&p);
    assert!(lines.iter().any(|l| l.contains("last")));
    assert!(!lines.iter().any(|l| l.contains("first")));
}

#[test]
fn a_page_may_have_its_own_legend() {
    let page = Page::new((0, 0), "T");
    assert_eq!(page.legend("usual"), "usual");
    assert_eq!(page.help("own").legend("usual"), "own");
}

#[test]
fn the_install_is_drawn_on_a_narrow_screen_too() {
    for cols in 0..8 {
        let ui = Ui { cols, rows: 24 };
        let mut p = Progress::new(&["one"]);
        assert_eq!(ui.progress(&p)[22], format!("  \x1b[2m{NO_ABORT}\x1b[0m"));
        p.say("abc".into());
        let lines = ui.progress(&p);
        let kept = &"abc"[..(cols as usize).saturating_sub(6)];
        assert_eq!(lines[8], format!("  \x1b[2m│ {kept}\x1b[0m"));
        assert_eq!(lines[22], format!("  \x1b[2m{NO_ABORT}\x1b[0m"));
    }
}
