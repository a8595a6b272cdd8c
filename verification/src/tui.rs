//! The screen: what a page, a row and the progress of an install look like.
//!
//! Styling is hand-written ANSI: a line is a `String` that can be built,
//! measured and tested. Taking the terminal and writing to it is the program's
//! business; everything here turns values into lines.

use std::collections::VecDeque;

use vstd::prelude::*;

use crate::text;
use crate::text::{contains, emit, filled, number, Text};

verus! {

pub const RESET: &'static str = "\x1b[0m";

pub const BOLD: &'static str = "\x1b[1m";

pub const DIM: &'static str = "\x1b[2m";

pub const ACCENT: &'static str = "\x1b[36m";

pub const OK: &'static str = "\x1b[32m";

pub const WARN: &'static str = "\x1b[33m";

pub const DANGER: &'static str = "\x1b[31m";

/// Left margin. Everything is drawn two columns in; nothing is centred, because
/// a screen that reflows as you type is harder to read than one that does not.
pub const PAD: &'static str = "  ";

/// The fewest columns the screens fit in.
pub const MIN_COLS: u16 = 60;

/// The fewest rows the screens fit in. A serial console is 80x24 and an
/// installer that cannot run on one is not an installer.
pub const MIN_ROWS: u16 = 18;

// ---------------------------------------------------------------------------
// Pages and rows
// ---------------------------------------------------------------------------

/// A screen's chrome: where it is in the interview, what it is asking, any
/// standing explanation the question needs, and its own key legend if it has
/// one.
pub struct Page {
    pub step: (usize, usize),
    pub title: String,
    pub note: Vec<String>,
    pub help: Option<String>,
}

/// What a `Page` holds, as contracts see it.
#[verifier::ext_equal]
pub struct PageView {
    pub step: (int, int),
    pub title: Text,
    pub note: Seq<Text>,
    pub help: Option<Text>,
}

impl View for Page {
    type V = PageView;

    open spec fn view(&self) -> PageView {
        PageView {
            step: (self.step.0 as int, self.step.1 as int),
            title: self.title@,
            note: self.note.deep_view(),
            help: self.help.deep_view(),
        }
    }
}

impl PageView {
    /// A page without notes or a legend of its own.
    pub open spec fn titled(step: (int, int), title: Text) -> PageView {
        PageView { step, title, note: Seq::empty(), help: None }
    }

    /// A page with one more note.
    pub open spec fn noted(self, line: Text) -> PageView {
        PageView { note: self.note.push(line), ..self }
    }

    /// A page with a key legend of its own.
    pub open spec fn helped(self, legend: Text) -> PageView {
        PageView { help: Some(legend), ..self }
    }

    /// The key legend: the page's own, or the one its screen has by default.
    pub open spec fn legend(self, usual: Text) -> Text {
        match self.help {
            Some(own) => own,
            None => usual,
        }
    }
}

impl Page {
    /// A page without notes or a legend of its own.
    pub fn new(step: (usize, usize), title: &str) -> (out: Page)
        ensures
            out@ == PageView::titled((step.0 as int, step.1 as int), title@),
    {
        let out = Page { step, title: title.to_owned(), note: Vec::new(), help: None };
        assert(out.note.deep_view() == Seq::<Text>::empty());
        out
    }

    /// The page with one more note.
    pub fn note(self, line: &str) -> (out: Page)
        ensures
            out@ == self@.noted(line@),
    {
        let mut out = self;
        emit(&mut out.note, line.to_owned());
        out
    }

    /// The page with a key legend of its own.
    pub fn help(self, legend: &str) -> (out: Page)
        ensures
            out@ == self@.helped(legend@),
    {
        let mut out = self;
        out.help = Some(legend.to_owned());
        out
    }

    /// The key legend: the page's own, or the one its screen has by default.
    pub fn legend(&self, usual: &str) -> (out: String)
        ensures
            out@ == self@.legend(usual@),
    {
        match &self.help {
            Some(own) => own.clone(),
            None => usual.to_owned(),
        }
    }
}

/// One row in a list.
pub struct Opt {
    pub label: String,
    pub note: String,
    /// A heading is drawn and skipped over; it cannot be selected.
    pub heading: bool,
    /// A disk that is currently mounted, say, is not. Shown, explained, not
    /// choosable.
    pub enabled: bool,
    /// Pre-checked when a screen of several choices opens, and where the cursor
    /// stands when a screen of one choice opens.
    pub checked: bool,
}

/// What an `Opt` holds, as contracts see it.
#[verifier::ext_equal]
pub struct OptView {
    pub label: Text,
    pub note: Text,
    pub heading: bool,
    pub enabled: bool,
    pub checked: bool,
}

impl View for Opt {
    type V = OptView;

    open spec fn view(&self) -> OptView {
        OptView {
            label: self.label@,
            note: self.note@,
            heading: self.heading,
            enabled: self.enabled,
            checked: self.checked,
        }
    }
}

impl DeepView for Opt {
    type V = OptView;

    open spec fn deep_view(&self) -> OptView {
        self@
    }
}

impl OptView {
    /// A row that can be chosen.
    pub open spec fn plain(label: Text, note: Text) -> OptView {
        OptView { label, note, heading: false, enabled: true, checked: false }
    }

    /// Whether the row can be chosen.
    pub open spec fn selectable(self) -> bool {
        !self.heading && self.enabled
    }
}

impl Opt {
    /// A row that can be chosen.
    pub fn new(label: &str, note: &str) -> (out: Opt)
        ensures
            out@ == OptView::plain(label@, note@),
    {
        Opt {
            label: label.to_owned(),
            note: note.to_owned(),
            heading: false,
            enabled: true,
            checked: false,
        }
    }

    /// A heading.
    pub fn heading(label: &str) -> (out: Opt)
        ensures
            out@ == (OptView {
                label: label@,
                note: Seq::empty(),
                heading: true,
                enabled: false,
                checked: false,
            }),
    {
        let note = String::new();
        assert(note@ == Seq::<char>::empty());
        Opt { label: label.to_owned(), note, heading: true, enabled: false, checked: false }
    }

    /// The same row, not to be chosen.
    pub fn disabled(self) -> (out: Opt)
        ensures
            out@ == (OptView { enabled: false, ..self@ }),
    {
        let mut out = self;
        out.enabled = false;
        out
    }

    /// The same row, checked from the start.
    pub fn checked(self) -> (out: Opt)
        ensures
            out@ == (OptView { checked: true, ..self@ }),
    {
        let mut out = self;
        out.checked = true;
        out
    }
}

/// The spaces needed after a label to reach the notes column.
pub open spec fn padding(label: Text, width: int) -> int {
    if label.len() < width {
        width - label.len()
    } else {
        0
    }
}

/// The spaces needed after `label` to reach the notes column.
pub fn pad(label: &str, width: usize) -> (n: usize)
    ensures
        n == padding(label@, width as int),
{
    let len: usize = label.unicode_len();
    if len < width {
        width - len
    } else {
        0
    }
}

/// The width of the widest label of a list that is not a heading.
pub open spec fn widest(options: Seq<OptView>) -> int
    decreases options.len(),
{
    if options.len() == 0 {
        0
    } else {
        let w = widest(options.drop_last());
        let last = options.last();
        if !last.heading && last.label.len() > w {
            last.label.len() as int
        } else {
            w
        }
    }
}

/// The widest selectable label in a list, so notes line up in one column.
/// Headings are excluded: a namespace name is not in the same column as the
/// modules under it.
pub fn column(options: &[Opt]) -> (w: usize)
    ensures
        w == widest(options.deep_view()),
{
    let ghost all = options.deep_view();
    let mut w: usize = 0;
    let mut i: usize = 0;
    while i < options.len()
        invariant
            all == options.deep_view(),
            i <= options.len(),
            w == widest(all.take(i as int)),
        decreases options.len() - i,
    {
        assert(all.take(i + 1).drop_last() == all.take(i as int));
        assert(all.take(i + 1).last() == options@[i as int]@);
        if !options[i].heading {
            let len: usize = options[i].label.as_str().unicode_len();
            if len > w {
                w = len;
            }
        }
        i += 1;
    }
    assert(all.take(i as int) == all);
    w
}

/// What follows a row's label: its note, in the notes column.
pub open spec fn note_column(o: OptView, width: int) -> Text {
    if o.note.len() == 0 {
        Seq::empty()
    } else {
        text::fill(' ', padding(o.label, width)) + "  "@ + DIM@ + o.note + RESET@
    }
}

/// What follows a row's label: its note, in the notes column. The padding is
/// computed from the label's own length, because escape codes have no width.
pub fn note_text(o: &Opt, width: usize) -> (out: String)
    ensures
        out@ == note_column(o@, width as int),
{
    if o.note.as_str().is_empty() {
        let out = String::new();
        assert(out@ == Seq::<char>::empty());
        out
    } else {
        filled(' ', pad(o.label.as_str(), width)).concat("  ").concat(DIM).concat(
            o.note.as_str(),
        ).concat(RESET)
    }
}

/// How a heading is drawn.
pub open spec fn heading_line(label: Text) -> Text {
    PAD@ + DIM@ + label + RESET@
}

/// The marker in front of a row: an arrow where the cursor stands.
pub open spec fn arrow(selected: bool) -> Text {
    if selected {
        ACCENT@ + "▸"@ + RESET@
    } else {
        " "@
    }
}

/// The marker in front of a row.
pub fn arrow_text(selected: bool) -> (out: String)
    ensures
        out@ == arrow(selected),
{
    if selected {
        ACCENT.to_owned().concat("▸").concat(RESET)
    } else {
        " ".to_owned()
    }
}

/// How a row of a list is drawn.
pub open spec fn row_line(o: OptView, selected: bool, width: int) -> Text {
    if o.heading {
        heading_line(o.label)
    } else {
        PAD@ + arrow(selected) + " "@ + (if !o.enabled {
            DIM@ + o.label + RESET@
        } else if selected {
            BOLD@ + o.label + RESET@
        } else {
            o.label
        }) + note_column(o, width)
    }
}

// ---------------------------------------------------------------------------
// The terminal
// ---------------------------------------------------------------------------

/// The size of the terminal.
#[derive(Clone, Copy)]
pub struct Ui {
    pub cols: u16,
    pub rows: u16,
}

/// What is left of `a` without `b`, and nothing when `b` is more.
pub open spec fn less(a: int, b: int) -> int {
    if a > b {
        a - b
    } else {
        0
    }
}

/// The position in the interview, as the header shows it.
pub open spec fn step_text(step: (int, int)) -> Text {
    if step.1 == 0 {
        Seq::empty()
    } else {
        "step "@ + text::decimal(step.0 as nat) + " of "@ + text::decimal(step.1 as nat)
    }
}

/// How a note of a page is drawn. A note that styles itself is left alone:
/// dimming it would end at its first inner reset.
pub open spec fn note_line(line: Text) -> Text {
    if text::occurs(line, "\x1b"@) {
        PAD@ + line
    } else {
        PAD@ + DIM@ + line + RESET@
    }
}

/// The lines at the top of a page.
pub open spec fn header_lines(cols: int, page: PageView) -> Seq<Text> {
    let right = step_text(page.step);
    let free = less(cols, 22 + right.len() as int);
    let gap = if free < 1 {
        1
    } else {
        free
    };
    seq![
        Seq::empty(),
        PAD@ + BOLD@ + "terracotta install"@ + RESET@ + text::fill(' ', gap) + DIM@ + right + RESET@,
        PAD@ + DIM@ + text::fill('─', less(cols, 4)) + RESET@,
        Seq::empty(),
        PAD@ + BOLD@ + page.title + RESET@,
    ] + page.note.map_values(|line: Text| note_line(line)) + seq![Seq::<char>::empty()]
}

/// Lines with the key legend pinned to the bottom, so that it does not move as
/// a list filters down to two entries.
pub open spec fn with_footer(lines: Seq<Text>, rows: int, help: Text) -> Seq<Text> {
    lines + Seq::new(less(rows - 2, lines.len() as int) as nat, |i: int| Seq::<char>::empty())
        + seq![PAD@ + DIM@ + help + RESET@]
}

/// Lines as they are written to the terminal, no more of them than it has rows.
pub open spec fn painted(lines: Seq<Text>, rows: int) -> Text
    decreases rows,
{
    if rows <= 0 || lines.len() == 0 {
        Seq::empty()
    } else {
        lines[0] + "\r\n"@ + painted(lines.drop_first(), rows - 1)
    }
}

/// How many rows a list may take below the lines already there: at least three.
pub open spec fn room_for_list(rows: int, used: int) -> int {
    if less(rows, used + 3) < 3 {
        3
    } else {
        less(rows, used + 3)
    }
}

impl Ui {
    /// Takes the terminal. Fails rather than degrading when there is not one:
    /// an installer that half-works over a pipe is a way to lose a disk. `size`
    /// is the number of columns and rows, or why it is not known.
    pub fn open(tty: bool, size: Result<(u16, u16), String>) -> (out: Result<Ui, String>)
        ensures
            match out {
                Ok(ui) => tty && size == Ok::<(u16, u16), String>((ui.cols, ui.rows)) && ui.cols
                    >= MIN_COLS && ui.rows >= MIN_ROWS,
                Err(e) => e@ == (if !tty {
                    "terracotta-installer needs a terminal; it is interactive by design"@
                } else {
                    match size {
                        Err(why) => "cannot size the terminal: "@ + why@,
                        Ok((cols, rows)) => "the terminal is "@ + text::decimal(cols as nat) + "x"@
                            + text::decimal(rows as nat)
                            + "; terracotta-installer needs at least 60x18"@,
                    }
                }),
            },
            out is Ok <==> tty && (size matches Ok((cols, rows)) && cols >= MIN_COLS && rows
                >= MIN_ROWS),
    {
        if !tty {
            return Err(
                "terracotta-installer needs a terminal; it is interactive by design".to_owned(),
            );
        }
        match size {
            Err(why) => Err("cannot size the terminal: ".to_owned().concat(why.as_str())),
            Ok((cols, rows)) => {
                if cols < MIN_COLS || rows < MIN_ROWS {
                    Err(
                        "the terminal is ".to_owned().concat(number(cols as u64).as_str()).concat(
                            "x",
                        ).concat(number(rows as u64).as_str()).concat(
                            "; terracotta-installer needs at least 60x18",
                        ),
                    )
                } else {
                    Ok(Ui { cols, rows })
                }
            },
        }
    }

    /// Takes the terminal's new size, if it is known.
    pub fn resized(&mut self, size: Option<(u16, u16)>)
        ensures
            *final(self) == (match size {
                Some((cols, rows)) => Ui { cols, rows },
                None => *old(self),
            }),
    {
        if let Some((cols, rows)) = size {
            self.cols = cols;
            self.rows = rows;
        }
    }

    /// The lines of a screen as they are written to the terminal.
    pub fn paint(&self, lines: &[String]) -> (out: String)
        ensures
            out@ == painted(lines.deep_view(), self.rows as int),
    {
        let ghost all = lines.deep_view();
        let mut out = String::new();
        let mut i: usize = 0;
        assert(all.skip(0) == all);
        assert(out@ + painted(all, self.rows as int) == painted(all, self.rows as int));
        while i < lines.len() && i < self.rows as usize
            invariant
                all == lines.deep_view(),
                i <= lines.len(),
                i <= self.rows,
                out@ + painted(all.skip(i as int), self.rows - i) == painted(all, self.rows as int),
            decreases lines.len() - i,
        {
            let ghost rest = all.skip(i as int);
            let ghost before = out@;
            assert(rest[0] == lines@[i as int]@);
            assert(rest.drop_first() == all.skip(i + 1));
            out.append(lines[i].as_str());
            out.append("\r\n");
            assert(before + (rest[0] + "\r\n"@ + painted(rest.drop_first(), self.rows - i - 1))
                == out@ + painted(rest.drop_first(), self.rows - i - 1));
            i += 1;
        }
        assert(out@ + Seq::<char>::empty() == out@);
        out
    }

    /// The lines at the top of a page.
    pub fn header(&self, page: &Page) -> (out: Vec<String>)
        ensures
            out.deep_view() == header_lines(self.cols as int, page@),
            out.len() == page@.note.len() + 6,
    {
        let right = if page.step.1 == 0 {
            String::new()
        } else {
            "step ".to_owned().concat(number(page.step.0 as u64).as_str()).concat(" of ").concat(
                number(page.step.1 as u64).as_str(),
            )
        };
        assert(right@ == step_text(page@.step));
        let len: usize = right.as_str().unicode_len();
        let cols: usize = self.cols as usize;
        let gap: usize = if cols > 22 && cols - 22 > len {
            cols - 22 - len
        } else {
            1
        };
        let rule: usize = if cols > 4 {
            cols - 4
        } else {
            0
        };
        let mut out: Vec<String> = Vec::new();
        emit(&mut out, String::new());
        emit(
            &mut out,
            PAD.to_owned().concat(BOLD).concat("terracotta install").concat(RESET).concat(
                filled(' ', gap).as_str(),
            ).concat(DIM).concat(right.as_str()).concat(RESET),
        );
        emit(&mut out, PAD.to_owned().concat(DIM).concat(filled('─', rule).as_str()).concat(RESET));
        emit(&mut out, String::new());
        emit(&mut out, PAD.to_owned().concat(BOLD).concat(page.title.as_str()).concat(RESET));
        let ghost top = out.deep_view();
        let ghost notes = page@.note.map_values(|line: Text| note_line(line));
        let mut i: usize = 0;
        assert(top + notes.take(0) == top);
        while i < page.note.len()
            invariant
                notes == page@.note.map_values(|line: Text| note_line(line)),
                i <= page.note.len(),
                top.len() == 5,
                out.deep_view() == top + notes.take(i as int),
            decreases page.note.len() - i,
        {
            let line = page.note[i].as_str();
            let drawn = if contains(line, "\x1b") {
                PAD.to_owned().concat(line)
            } else {
                PAD.to_owned().concat(DIM).concat(line).concat(RESET)
            };
            assert(notes[i as int] == drawn@);
            assert(notes.take(i + 1) == notes.take(i as int).push(drawn@));
            assert((top + notes.take(i as int)).push(drawn@) == top + notes.take(i + 1));
            emit(&mut out, drawn);
            i += 1;
        }
        assert(notes.take(i as int) == notes);
        emit(&mut out, String::new());
        assert(out.deep_view() =~= header_lines(self.cols as int, page@));
        assert(out.len() == out.deep_view().len());
        out
    }

    /// Pins the key legend to the bottom.
    pub fn footer(&self, help: &str, out: &mut Vec<String>)
        ensures
            final(out).deep_view() == with_footer(old(out).deep_view(), self.rows as int, help@),
    {
        let ghost before = out.deep_view();
        let ghost blank = Seq::new(
            less(self.rows - 2, before.len() as int) as nat,
            |i: int| Seq::<char>::empty(),
        );
        let mut k: usize = 0;
        assert(out.len() == out.deep_view().len());
        assert(before + blank.take(0) == before);
        while self.rows >= 2 && out.len() < self.rows as usize - 2
            invariant
                blank == Seq::new(
                    less(self.rows - 2, before.len() as int) as nat,
                    |i: int| Seq::<char>::empty(),
                ),
                k <= blank.len(),
                out.deep_view() == before + blank.take(k as int),
                out.len() == before.len() + k,
            decreases self.rows - out.len(),
        {
            let empty = String::new();
            assert(empty@ == Seq::<char>::empty());
            assert(blank.take(k + 1) == blank.take(k as int).push(empty@));
            assert((before + blank.take(k as int)).push(empty@) == before + blank.take(k + 1));
            emit(out, empty);
            assert(out.len() == out.deep_view().len());
            k += 1;
        }
        assert(blank.take(k as int) == blank);
        emit(out, PAD.to_owned().concat(DIM).concat(help).concat(RESET));
        assert(out.deep_view() =~= with_footer(old(out).deep_view(), self.rows as int, help@));
    }

    /// How a row of a list is drawn.
    pub fn row(&self, opt: &Opt, selected: bool, width: usize) -> (out: String)
        ensures
            out@ == row_line(opt@, selected, width as int),
    {
        if opt.heading {
            return PAD.to_owned().concat(DIM).concat(opt.label.as_str()).concat(RESET);
        }
        let label = if !opt.enabled {
            DIM.to_owned().concat(opt.label.as_str()).concat(RESET)
        } else if selected {
            BOLD.to_owned().concat(opt.label.as_str()).concat(RESET)
        } else {
            opt.label.clone()
        };
        PAD.to_owned().concat(arrow_text(selected).as_str()).concat(" ").concat(
            label.as_str(),
        ).concat(note_text(opt, width).as_str())
    }
}

// ---------------------------------------------------------------------------
// The install itself
// ---------------------------------------------------------------------------

/// Twelve lines of scrollback. Enough to see what a command is doing; short
/// enough that the step list stays on screen, which is the part that says how
/// far along the install is.
pub const TAIL: usize = 12;

/// The key legend while the install runs.
pub const NO_ABORT: &'static str = "the install runs to completion · there is no abort key";

/// What the install screen is drawing.
pub struct Progress {
    pub steps: Vec<String>,
    pub at: usize,
    pub failed: bool,
    pub detail: String,
    pub tail: VecDeque<String>,
}

/// What a `Progress` holds, as contracts see it.
#[verifier::ext_equal]
pub struct ProgressView {
    pub steps: Seq<Text>,
    pub at: int,
    pub failed: bool,
    pub detail: Text,
    pub tail: Seq<Text>,
}

/// The texts of some strings.
pub open spec fn strings(list: Seq<String>) -> Seq<Text> {
    list.map_values(|s: String| s@)
}

impl View for Progress {
    type V = ProgressView;

    open spec fn view(&self) -> ProgressView {
        ProgressView {
            steps: self.steps.deep_view(),
            at: self.at as int,
            failed: self.failed,
            detail: self.detail@,
            tail: strings(self.tail@),
        }
    }
}

impl ProgressView {
    /// An install before its first step.
    pub open spec fn fresh(steps: Seq<Text>) -> ProgressView {
        ProgressView { steps, at: 0, failed: false, detail: Seq::empty(), tail: Seq::empty() }
    }

    /// The same with one more line, and without the oldest if there is no room.
    pub open spec fn said(self, line: Text) -> ProgressView {
        ProgressView {
            tail: if self.tail.len() == TAIL {
                self.tail.drop_first().push(line)
            } else {
                self.tail.push(line)
            },
            ..self
        }
    }

    /// How a step is drawn.
    pub open spec fn step_line(self, i: int) -> Text {
        let mark = if i < self.at {
            OK@ + "✔"@ + RESET@
        } else if i == self.at && self.failed {
            DANGER@ + "✘"@ + RESET@
        } else if i == self.at {
            ACCENT@ + "▸"@ + RESET@
        } else {
            " "@
        };
        let style = if i == self.at {
            BOLD@
        } else {
            DIM@
        };
        let detail = if i == self.at && self.detail.len() > 0 {
            "  "@ + DIM@ + self.detail + RESET@
        } else {
            Seq::empty()
        };
        PAD@ + mark + " "@ + style + self.steps[i] + RESET@ + detail
    }

    /// The steps, as they are drawn.
    pub open spec fn step_lines(self) -> Seq<Text> {
        Seq::new(self.steps.len(), |i: int| self.step_line(i))
    }

    /// The lines of the running command that fit, each cut to the screen.
    pub open spec fn tail_lines(self, cols: int, room: int) -> Seq<Text> {
        let kept = if self.tail.len() > room {
            self.tail.skip(self.tail.len() - room)
        } else {
            self.tail
        };
        kept.map_values(|line: Text| tail_line(line, cols))
    }
}

/// How a line of the running command is drawn.
pub open spec fn tail_line(line: Text, cols: int) -> Text {
    PAD@ + DIM@ + "│ "@ + (if line.len() > less(cols, 6) {
        line.take(less(cols, 6))
    } else {
        line
    }) + RESET@
}

/// The page of the install screen.
pub open spec fn install_page() -> PageView {
    PageView::titled((0, 0), "Installing"@)
}

/// The lines of the install screen.
pub open spec fn progress_lines(ui: Ui, state: ProgressView) -> Seq<Text> {
    let top = header_lines(ui.cols as int, install_page()) + state.step_lines()
        + seq![Seq::<char>::empty()];
    let free = less(ui.rows as int, top.len() as int + 3);
    let room = if free < 1 {
        1
    } else {
        free
    };
    with_footer(top + state.tail_lines(ui.cols as int, room), ui.rows as int, NO_ABORT@)
}

impl Progress {
    /// An install before its first step.
    pub fn new(steps: &[&'static str]) -> (out: Progress)
        ensures
            out@ == ProgressView::fresh(steps@.map_values(|s: &'static str| s@)),
    {
        let ghost all = steps@.map_values(|s: &'static str| s@);
        let mut copy: Vec<String> = Vec::new();
        let mut i: usize = 0;
        assert(copy.deep_view() == all.take(0));
        while i < steps.len()
            invariant
                all == steps@.map_values(|s: &'static str| s@),
                i <= steps.len(),
                copy.deep_view() == all.take(i as int),
            decreases steps.len() - i,
        {
            let s = steps[i];
            emit(&mut copy, s.to_owned());
            assert(all.take(i + 1) == all.take(i as int).push(s@));
            i += 1;
        }
        assert(all.take(i as int) == all);
        let out = Progress {
            steps: copy,
            at: 0,
            failed: false,
            detail: String::new(),
            tail: VecDeque::new(),
        };
        assert(out@ =~= ProgressView::fresh(all));
        out
    }

    /// Adds a line of the running command.
    pub fn say(&mut self, line: String)
        ensures
            final(self)@ == old(self)@.said(line@),
    {
        let ghost before = self@;
        if self.tail.len() == TAIL {
            let _oldest = self.tail.pop_front();
            assert(strings(self.tail@) == before.tail.drop_first());
        }
        let ghost kept = strings(self.tail@);
        self.tail.push_back(line);
        assert(strings(self.tail@) == kept.push(line@));
        assert(self@ =~= before.said(line@));
    }

    /// How a step is drawn.
    fn step_text(&self, i: usize) -> (out: String)
        requires
            i < self.steps@.len(),
        ensures
            out@ == self@.step_line(i as int),
    {
        let here = i == self.at;
        let mark = if i < self.at {
            OK.to_owned().concat("✔").concat(RESET)
        } else if here && self.failed {
            DANGER.to_owned().concat("✘").concat(RESET)
        } else if here {
            ACCENT.to_owned().concat("▸").concat(RESET)
        } else {
            " ".to_owned()
        };
        let style = if here {
            BOLD
        } else {
            DIM
        };
        let detail = if here && !self.detail.as_str().is_empty() {
            "  ".to_owned().concat(DIM).concat(self.detail.as_str()).concat(RESET)
        } else {
            String::new()
        };
        assert(self.steps.deep_view()[i as int] == self.steps@[i as int]@);
        PAD.to_owned().concat(mark.as_str()).concat(" ").concat(style).concat(
            self.steps[i].as_str(),
        ).concat(RESET).concat(detail.as_str())
    }
}

impl Ui {
    /// The install itself: the step list with its verdicts, and a tail of what
    /// the running command is saying.
    pub fn progress(&self, state: &Progress) -> (out: Vec<String>)
        ensures
            out.deep_view() == progress_lines(*self, state@),
    {
        let page = Page::new((0, 0), "Installing");
        let mut out = self.header(&page);
        let ghost top = out.deep_view();
        let ghost steps = state@.step_lines();
        let mut i: usize = 0;
        assert(top + steps.take(0) == top);
        while i < state.steps.len()
            invariant
                steps == state@.step_lines(),
                i <= state.steps.len(),
                out.deep_view() == top + steps.take(i as int),
            decreases state.steps.len() - i,
        {
            let line = state.step_text(i);
            assert(steps.take(i + 1) == steps.take(i as int).push(line@));
            assert((top + steps.take(i as int)).push(line@) == top + steps.take(i + 1));
            emit(&mut out, line);
            i += 1;
        }
        assert(steps.take(i as int) == steps);
        emit(&mut out, String::new());
        let ghost above = top + steps + seq![Seq::<char>::empty()];
        assert(out.deep_view() == above);
        assert(out.len() == out.deep_view().len());
        let rows: usize = self.rows as usize;
        let room: usize = if rows > 4 && out.len() < rows - 3 {
            rows - 3 - out.len()
        } else {
            1
        };
        let cut: usize = if self.cols > 6 {
            self.cols as usize - 6
        } else {
            0
        };
        let count: usize = state.tail.len();
        let mut k: usize = if count > room {
            count - room
        } else {
            0
        };
        let ghost first = k as int;
        let ghost tail = state@.tail_lines(self.cols as int, room as int);
        assert(above + tail.take(0) == above);
        while k < count
            invariant
                count == state.tail@.len(),
                cut == less(self.cols as int, 6),
                0 <= first <= k <= count,
                first == (if count > room {
                    count - room
                } else {
                    0
                }),
                tail == state@.tail_lines(self.cols as int, room as int),
                tail.len() == count - first,
                out.deep_view() == above + tail.take(k - first),
            decreases count - k,
        {
            let line = state.tail[k].as_str();
            let len: usize = line.unicode_len();
            let short = if len > cut {
                line.substring_char(0, cut).to_owned()
            } else {
                line.to_owned()
            };
            let drawn = PAD.to_owned().concat(DIM).concat("│ ").concat(short.as_str()).concat(
                RESET,
            );
            assert(line@ == state@.tail[k as int]);
            assert(len > cut ==> short@ == line@.take(cut as int));
            assert(tail[k - first] == drawn@);
            assert(tail.take(k - first + 1) == tail.take(k - first).push(drawn@));
            assert((above + tail.take(k - first)).push(drawn@) == above + tail.take(k - first + 1));
            emit(&mut out, drawn);
            k += 1;
        }
        assert(tail.take(k - first) == tail);
        self.footer(NO_ABORT, &mut out);
        out
    }
}

/// What the install screen shows of a command is its last lines, twelve of
/// them at most.
pub proof fn lemma_scrollback_is_short(p: ProgressView, line: Text)
    requires
        p.tail.len() <= TAIL,
    ensures
        p.said(line).tail.len() <= TAIL,
        p.said(line).tail.last() == line,
        p.said(line).at == p.at,
        p.said(line).failed == p.failed,
{
}

// ---------------------------------------------------------------------------
// Laws
// ---------------------------------------------------------------------------

/// The header of a page holds its title and every one of its notes, in order,
/// and where in the interview it is.
pub proof fn lemma_header_tells_the_page(cols: int, page: PageView, k: int)
    requires
        0 <= k < page.note.len(),
    ensures
        ({
            let lines = header_lines(cols, page);
            &&& lines.len() == 6 + page.note.len()
            &&& text::occurs(lines[4], page.title)
            &&& text::occurs(lines[5 + k], page.note[k])
            &&& page.step.1 > 0 ==> text::occurs(
                lines[1],
                "step "@ + text::decimal(page.step.0 as nat) + " of "@ + text::decimal(
                    page.step.1 as nat,
                ),
            )
        }),
{
    let lines = header_lines(cols, page);
    text::lemma_occurs_between(PAD@ + BOLD@, page.title, RESET@);
    let note = page.note[k];
    text::lemma_occurs_between(PAD@ + DIM@, note, RESET@);
    text::lemma_occurs_between(PAD@, note, Seq::empty());
    assert(PAD@ + note + Seq::<char>::empty() =~= PAD@ + note);
    assert(lines[5 + k] == note_line(note));
    let right = step_text(page.step);
    let free = less(cols, 22 + right.len() as int);
    let gap = if free < 1 {
        1
    } else {
        free
    };
    text::lemma_occurs_between(
        PAD@ + BOLD@ + "terracotta install"@ + RESET@ + text::fill(' ', gap) + DIM@,
        right,
        RESET@,
    );
}

/// The legend is the last line, everything above it stays, and the legend of a
/// screen with room stands on the second last row.
pub proof fn lemma_legend_is_last(lines: Seq<Text>, rows: int, help: Text)
    ensures
        ({
            let all = with_footer(lines, rows, help);
            &&& text::occurs(all.last(), help)
            &&& all.take(lines.len() as int) == lines
            &&& all.len() == (if lines.len() + 2 < rows {
                rows - 1
            } else {
                lines.len() as int + 1
            })
            &&& forall|i: int| lines.len() <= i < all.len() - 1 ==> (#[trigger] all[i]).len() == 0
        }),
{
    let all = with_footer(lines, rows, help);
    text::lemma_occurs_between(PAD@ + DIM@, help, RESET@);
    assert(all.take(lines.len() as int) =~= lines);
}

/// Every line that the terminal has a row for is painted whole and in order,
/// and no other.
pub proof fn lemma_lines_are_painted(lines: Seq<Text>, line: Text, rows: int)
    requires
        lines.len() <= rows,
    ensures
        painted(lines.push(line), rows + 1) == painted(lines, rows) + (line + "\r\n"@),
        painted(lines.push(line), lines.len() as int) == painted(lines, rows),
        painted(Seq::<Text>::empty(), rows) == Seq::<char>::empty(),
    decreases lines.len(),
{
    if lines.len() == 0 {
        let one = lines.push(line);
        assert(one.drop_first() =~= Seq::<Text>::empty());
        assert(painted(one.drop_first(), rows) =~= Seq::<char>::empty());
        assert(painted(one, rows + 1) =~= painted(lines, rows) + (line + "\r\n"@));
    } else {
        let rest = lines.drop_first();
        lemma_lines_are_painted(rest, line, rows - 1);
        assert(lines.push(line).drop_first() =~= rest.push(line));
        assert(painted(lines.push(line), rows + 1) =~= painted(lines, rows) + (line + "\r\n"@));
    }
}

/// Steps that are done are ticked, the one that failed is crossed, and the one
/// at work is pointed at; each is named, and no other is marked.
pub proof fn lemma_steps_are_marked(ui: Ui, p: ProgressView, i: int)
    requires
        0 <= i < p.steps.len(),
    ensures
        ({
            let line = progress_lines(ui, p)[6 + i];
            &&& text::occurs(line, p.steps[i])
            &&& i < p.at ==> text::begins(line, PAD@ + (OK@ + "✔"@ + RESET@))
            &&& i == p.at && p.failed ==> text::begins(line, PAD@ + (DANGER@ + "✘"@ + RESET@))
            &&& i == p.at && !p.failed ==> text::begins(line, PAD@ + (ACCENT@ + "▸"@ + RESET@))
            &&& i > p.at ==> text::begins(line, PAD@ + " "@)
            &&& i == p.at ==> text::occurs(line, p.detail)
        }),
{
    let line = p.step_line(i);
    let head = header_lines(ui.cols as int, install_page());
    assert(head.len() == 6);
    assert(progress_lines(ui, p)[6 + i] == line);
    let mark = if i < p.at {
        OK@ + "✔"@ + RESET@
    } else if i == p.at && p.failed {
        DANGER@ + "✘"@ + RESET@
    } else if i == p.at {
        ACCENT@ + "▸"@ + RESET@
    } else {
        " "@
    };
    let style = if i == p.at {
        BOLD@
    } else {
        DIM@
    };
    let detail = if i == p.at && p.detail.len() > 0 {
        "  "@ + DIM@ + p.detail + RESET@
    } else {
        Seq::empty()
    };
    assert(line == PAD@ + mark + " "@ + style + p.steps[i] + RESET@ + detail);
    text::lemma_occurs_between(PAD@ + mark + " "@ + style, p.steps[i], RESET@ + detail);
    assert(line =~= PAD@ + mark + " "@ + style + p.steps[i] + (RESET@ + detail));
    let rest = " "@ + style + p.steps[i] + RESET@ + detail;
    assert(line =~= (PAD@ + mark) + rest);
    assert(line.subrange(0, (PAD@ + mark).len() as int) =~= PAD@ + mark);
    if i == p.at {
        if p.detail.len() > 0 {
            let before = PAD@ + mark + " "@ + style + p.steps[i] + RESET@ + "  "@ + DIM@;
            text::lemma_occurs_between(before, p.detail, RESET@);
            assert(line =~= before + p.detail + RESET@);
        } else {
            assert(line.subrange(0, 0) =~= p.detail);
            assert(text::occurs_at(line, p.detail, 0));
        }
    }
}

/// The newest line of the running command is always on the screen, cut to its
/// width and no more than that.
pub proof fn lemma_newest_line_is_shown(ui: Ui, p: ProgressView)
    requires
        p.tail.len() > 0,
    ensures
        progress_lines(ui, p).contains(tail_line(p.tail.last(), ui.cols as int)),
        p.tail.last().len() + 6 <= ui.cols ==> text::occurs(
            tail_line(p.tail.last(), ui.cols as int),
            p.tail.last(),
        ),
{
    let head = header_lines(ui.cols as int, install_page());
    let top = head + p.step_lines() + seq![Seq::<char>::empty()];
    let free = less(ui.rows as int, top.len() as int + 3);
    let room = if free < 1 {
        1
    } else {
        free
    };
    let tail = p.tail_lines(ui.cols as int, room);
    let last = tail_line(p.tail.last(), ui.cols as int);
    assert(tail[tail.len() - 1] == last);
    let all = progress_lines(ui, p);
    assert(all[top.len() + tail.len() - 1] == last);
    text::lemma_occurs_between(PAD@ + DIM@ + "│ "@, p.tail.last(), RESET@);
}

/// The notes stand in one column: no label that is not a heading is wider than
/// it, and some label is as wide unless there is none.
pub proof fn lemma_column_fits(options: Seq<OptView>, i: int)
    ensures
        0 <= i < options.len() && !options[i].heading ==> options[i].label.len() <= widest(options),
        widest(options) == 0 || exists|k: int|
            0 <= k < options.len() && !(#[trigger] options[k]).heading && options[k].label.len()
                == widest(options),
        widest(options) >= 0,
    decreases options.len(),
{
    if options.len() > 0 {
        let rest = options.drop_last();
        lemma_column_fits(rest, i);
        if 0 <= i < rest.len() {
            assert(rest[i] == options[i]);
        }
        if widest(rest) > 0 {
            let k = choose|k: int|
                0 <= k < rest.len() && !(#[trigger] rest[k]).heading && rest[k].label.len()
                    == widest(rest);
            assert(options[k] == rest[k]);
        }
        let last = options[options.len() - 1];
        assert(last == options.last());
    }
}

/// A row shows its label and its note, and only the row under the cursor has
/// the arrow.
pub proof fn lemma_rows_show_their_labels(o: OptView, selected: bool, width: int)
    ensures
        text::occurs(row_line(o, selected, width), o.label),
        !o.heading ==> text::occurs(row_line(o, selected, width), o.note),
        !o.heading && selected ==> text::begins(
            row_line(o, selected, width),
            PAD@ + (ACCENT@ + "▸"@ + RESET@),
        ),
        !o.heading && !selected ==> text::begins(row_line(o, selected, width), PAD@ + " "@),
{
    let line = row_line(o, selected, width);
    if o.heading {
        text::lemma_occurs_between(PAD@ + DIM@, o.label, RESET@);
    } else {
        let front = PAD@ + arrow(selected) + " "@;
        let (style, end) = if !o.enabled {
            (DIM@, RESET@)
        } else if selected {
            (BOLD@, RESET@)
        } else {
            (Seq::<char>::empty(), Seq::<char>::empty())
        };
        let note = note_column(o, width);
        text::lemma_occurs_between(front + style, o.label, end + note);
        assert(line =~= front + style + o.label + (end + note));
        if o.note.len() > 0 {
            let before = front + style + o.label + end + text::fill(' ', padding(o.label, width))
                + "  "@ + DIM@;
            text::lemma_occurs_between(before, o.note, RESET@);
            assert(line =~= before + o.note + RESET@);
        } else {
            assert(line.subrange(0, 0) =~= o.note);
            assert(text::occurs_at(line, o.note, 0));
        }
        let begin = PAD@ + arrow(selected);
        assert(line.subrange(0, begin.len() as int) =~= begin);
    }
}

/// A page keeps its title and gains notes one after the other; its own legend
/// is shown when it has one, and the usual one otherwise. A row holds what it
/// was made of and can be chosen.
pub proof fn lemma_pages_hold_what_they_are_given(
    page: PageView,
    step: (int, int),
    line: Text,
    usual: Text,
)
    ensures
        PageView::titled(step, line) == (PageView {
            step,
            title: line,
            note: PageView::titled(step, line).note,
            help: None,
        }),
        PageView::titled(step, line).note.len() == 0,
        page.noted(line).note == page.note.push(line),
        page.noted(line).title == page.title && page.noted(line).step == page.step
            && page.noted(line).help == page.help,
        page.helped(line).help == Some(line) && page.helped(line).note == page.note && page.helped(
            line,
        ).title == page.title && page.helped(line).step == page.step,
        page.helped(line).legend(usual) == line,
        page.help is None ==> page.legend(usual) == usual,
        ({
            let o = OptView::plain(line, usual);
            o.label == line && o.note == usual && o.enabled && !o.heading && !o.checked
                && o.selectable()
        }),
{
}

/// The scrollback is the last twelve lines of all that was said, oldest first.
pub proof fn lemma_scrollback_is_the_last_lines(p: ProgressView, line: Text)
    requires
        p.tail.len() <= 12,
    ensures
        p.tail.len() < 12 ==> p.said(line).tail == p.tail.push(line),
        p.tail.len() == 12 ==> p.said(line).tail == p.tail.skip(1).push(line),
        p.said(line).steps == p.steps && p.said(line).detail == p.detail,
{
    assert(p.tail.len() == 12 ==> p.tail.drop_first() =~= p.tail.skip(1));
}

/// An install that has not begun has no step done, nothing said and no failure.
pub proof fn lemma_progress_starts_empty(steps: Seq<Text>)
    ensures
        ({
            let p = ProgressView::fresh(steps);
            p.steps == steps && p.at == 0 && !p.failed && p.detail.len() == 0 && p.tail.len() == 0
        }),
{
}

/// The notes of rows no wider than the column begin at the same place, and a wider
/// label is not cut.
pub proof fn lemma_notes_line_up(o: OptView, width: int)
    requires
        o.note.len() > 0,
    ensures
        ({
            let spaces = padding(o.label, width);
            &&& o.label.len() <= width ==> o.label.len() + spaces == width
            &&& o.label.len() > width ==> spaces == 0
            &&& note_column(o, width) == text::fill(' ', spaces) + "  \x1b[2m"@ + o.note + "\x1b[0m"@
        }),
{
    reveal_strlit("  ");
    reveal_strlit("\x1b[2m");
    reveal_strlit("  \x1b[2m");
    assert("  "@ + DIM@ =~= "  \x1b[2m"@);
    assert(note_column(o, width) =~= text::fill(' ', padding(o.label, width)) + ("  "@ + DIM@)
        + o.note + RESET@);
}

/// A note without a style of its own is dimmed; one with a style is left as it is.
pub proof fn lemma_styled_notes_are_left(line: Text)
    ensures
        line.contains('\x1b') ==> note_line(line) == PAD@ + line,
        !line.contains('\x1b') ==> note_line(line) == PAD@ + "\x1b[2m"@ + line + "\x1b[0m"@,
{
    reveal_strlit("\x1b");
    let esc = "\x1b"@;
    if line.contains('\x1b') {
        let k = choose|k: int| 0 <= k < line.len() && line[k] == '\x1b';
        assert(line.subrange(k, k + 1) =~= esc);
        assert(text::occurs_at(line, esc, k));
    } else if text::occurs(line, esc) {
        let k = choose|k: int| text::occurs_at(line, esc, k);
        assert(line.subrange(k, k + 1)[0] == esc[0]);
        assert(line[k] == '\x1b');
    }
}

/// A list gets what the terminal has left beside the lines above it and three below,
/// but never fewer than three rows.
pub proof fn lemma_room_is_what_is_left(rows: int, used: int)
    requires
        0 <= used,
    ensures
        used + 6 <= rows ==> used + room_for_list(rows, used) + 3 == rows,
        used + 6 > rows ==> room_for_list(rows, used) == 3,
{
}

} // verus!
